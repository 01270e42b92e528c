//! Decisions of the real-time visualizer: the spectrum cache grid, the song clock and the
//! audio output cursor.
use vstd::prelude::*;

use crate::fft::{SPECTRUM_SIZE, STEP_SIZE, WINDOW_SIZE};

verus! {

/// `x` rounded down to a multiple of the step size.
pub fn floor_step(x: usize) -> (r: usize)
    ensures
        r == x - x % STEP_SIZE,
{
    let r = x & !(STEP_SIZE - 1);
    assert(x & !255usize == x - x % 256) by (bit_vector);
    r
}

/// `x` rounded up to a multiple of the step size.
pub fn ceil_step(x: usize) -> (r: usize)
    requires
        x + STEP_SIZE <= usize::MAX,
    ensures
        r == (if x % STEP_SIZE == 0 { x as int } else { x - x % STEP_SIZE + STEP_SIZE }),
{
    let y = x + STEP_SIZE - 1;
    let r = y & !(STEP_SIZE - 1);
    assert(y & !255usize == y - y % 256) by (bit_vector);
    r
}

} // verus!

verus! {

/// The longest duration `std::time::Duration` holds, in nanoseconds.
pub const MAX_DURATION_NANOS: u128 = 18446744073709551615999999999;

/// Half a second, in nanoseconds: how far one skip moves.
pub const SKIP_NANOS: u128 = 500000000;

/// A user request to the player.
#[derive(Clone, Copy, Debug, PartialEq, Eq, Structural)]
pub enum Action {
    PlayPause,
    Advance,
    Rewind,
}

/// The playback clock of a song. Times are nanoseconds; instants are read from a monotonic
/// clock that the caller supplies as `now`.
pub struct SongTime {
    /// Position in the song when playback last started or stopped.
    pub start_timestamp: u128,
    /// The instant playback started, while it plays.
    pub started_playing: Option<u128>,
    pub song_length: u128,
}

/// Time elapsed from instant `since` to instant `now`; zero if `now` is earlier.
pub open spec fn elapsed(since: u128, now: u128) -> int {
    if now >= since {
        now - since
    } else {
        0
    }
}

impl SongTime {
    /// The position in the song at instant `now`.
    pub open spec fn spec_dur(self, now: u128) -> int {
        self.start_timestamp + match self.started_playing {
            Some(t) => elapsed(t, now),
            None => 0,
        }
    }

    /// The clock after the request `act` at instant `now`.
    pub open spec fn after(self, act: Action, now: u128) -> SongTime {
        match act {
            Action::PlayPause => match self.started_playing {
                Some(_) => SongTime {
                    start_timestamp: self.spec_dur(now) as u128,
                    started_playing: None,
                    song_length: self.song_length,
                },
                None => SongTime { started_playing: Some(now), ..self },
            },
            Action::Advance => {
                if self.spec_dur(now) + SKIP_NANOS >= self.song_length {
                    SongTime {
                        start_timestamp: self.song_length,
                        started_playing: None,
                        song_length: self.song_length,
                    }
                } else {
                    SongTime { start_timestamp: (self.start_timestamp + SKIP_NANOS) as u128, ..self }
                }
            },
            Action::Rewind => {
                let d = if self.started_playing is Some {
                    self.spec_dur(now)
                } else {
                    self.start_timestamp as int
                };
                SongTime {
                    start_timestamp: (if d >= SKIP_NANOS { d - SKIP_NANOS } else { 0 }) as u128,
                    started_playing: if self.started_playing is Some {
                        Some(now)
                    } else {
                        None
                    },
                    song_length: self.song_length,
                }
            },
        }
    }

    /// A stopped clock at the start of a song of the given length.
    pub fn new(song_length: u128) -> (s: Self)
        ensures
            s.start_timestamp == 0,
            s.started_playing is None,
            s.song_length == song_length,
    {
        SongTime { start_timestamp: 0, started_playing: None, song_length }
    }

    fn elapsed_since(since: u128, now: u128) -> (d: u128)
        ensures
            d == elapsed(since, now),
    {
        if now >= since {
            now - since
        } else {
            0
        }
    }

    /// The position in the song at instant `now`.
    pub fn dur(&self, now: u128) -> (d: u128)
        requires
            self.spec_dur(now) <= MAX_DURATION_NANOS,
        ensures
            d == self.spec_dur(now),
    {
        self.start_timestamp + match self.started_playing {
            Some(t) => SongTime::elapsed_since(t, now),
            None => 0,
        }
    }

    /// Stops the clock at the end of the song once the position reaches it.
    pub fn check_end(&mut self, now: u128)
        requires
            old(self).spec_dur(now) <= MAX_DURATION_NANOS,
        ensures
            final(self).song_length == old(self).song_length,
            if old(self).spec_dur(now) >= old(self).song_length {
                &&& final(self).started_playing is None
                &&& final(self).start_timestamp == old(self).song_length
            } else {
                *final(self) == *old(self)
            },
            final(self).spec_dur(now) <= final(self).song_length,
    {
        if self.dur(now) >= self.song_length {
            self.started_playing = None;
            self.start_timestamp = self.song_length;
        }
    }

    /// Applies a user request at instant `now`: play/pause starts or stops the clock,
    /// advance and rewind move it by half a second (rewind stops at the start, advance at
    /// the end).
    pub fn handle(&mut self, act: Action, now: u128)
        requires
            match act {
                Action::PlayPause => old(self).spec_dur(now) <= MAX_DURATION_NANOS,
                Action::Advance => old(self).spec_dur(now) + SKIP_NANOS <= MAX_DURATION_NANOS,
                Action::Rewind => old(self).spec_dur(now) <= MAX_DURATION_NANOS,
            },
        ensures
            *final(self) == old(self).after(act, now),
    {
        match act {
            Action::PlayPause => {
                if let Some(inst) = self.started_playing {
                    self.started_playing = None;
                    self.start_timestamp = self.start_timestamp + SongTime::elapsed_since(inst, now);
                } else {
                    self.started_playing = Some(now);
                }
            },
            Action::Advance => {
                self.start_timestamp = self.start_timestamp + SKIP_NANOS;
                self.check_end(now);
            },
            Action::Rewind => {
                if let Some(inst) = self.started_playing {
                    self.start_timestamp = self.start_timestamp + SongTime::elapsed_since(inst, now);
                    self.start_timestamp = match self.start_timestamp.checked_sub(SKIP_NANOS) {
                        Some(t) => t,
                        None => 0,
                    };
                    self.started_playing = Some(now);
                } else {
                    self.start_timestamp = match self.start_timestamp.checked_sub(SKIP_NANOS) {
                        Some(t) => t,
                        None => 0,
                    };
                }
            },
        }
    }
}

} // verus!

verus! {

/// Where audio output stands in a song's interleaved samples, and whether it plays.
pub struct AudioCursor {
    pub player_head: usize,
    pub paused: bool,
}

impl AudioCursor {
    /// The frames of half a second of audio.
    pub open spec fn skip(channels: usize, samples_per_second: u32) -> int {
        channels * (samples_per_second / 2)
    }

    /// The cursor after the request `act`.
    pub open spec fn after(self, act: Action, channels: usize, samples_per_second: u32) -> AudioCursor {
        let step = AudioCursor::skip(channels, samples_per_second);
        match act {
            Action::PlayPause => AudioCursor { paused: !self.paused, ..self },
            Action::Advance => AudioCursor { player_head: (self.player_head + step) as usize, ..self },
            Action::Rewind => AudioCursor {
                player_head: (if self.player_head >= step { self.player_head - step } else { 0 }) as usize,
                ..self
            },
        }
    }

    /// The playing position in a song of `len` samples: a head skipped past the end stands
    /// at the end.
    pub open spec fn position(self, len: int) -> int {
        if self.player_head <= len {
            self.player_head as int
        } else {
            len
        }
    }

    /// What filling a buffer of `n` samples from `samples` writes into it.
    pub open spec fn fill_output(self, samples: Seq<i16>, n: int) -> Seq<i16> {
        let h = self.position(samples.len() as int);
        if self.paused {
            Seq::new(n as nat, |i: int| 0i16)
        } else if h + n <= samples.len() {
            samples.subrange(h, h + n)
        } else {
            samples.subrange(h, samples.len() as int) + Seq::new(
                (h + n - samples.len()) as nat,
                |i: int| 0i16,
            )
        }
    }

    /// The cursor after filling a buffer of `n` samples from a song of `len` samples.
    pub open spec fn after_fill(self, len: int, n: int) -> AudioCursor {
        let h = self.position(len);
        if self.paused {
            self
        } else if h + n <= len {
            AudioCursor { player_head: (h + n) as usize, paused: false }
        } else {
            AudioCursor { player_head: len as usize, paused: true }
        }
    }

    /// A paused cursor at the start of the song.
    pub fn new() -> (c: Self)
        ensures
            c.player_head == 0,
            c.paused,
    {
        AudioCursor { player_head: 0, paused: true }
    }

    /// Applies a user request: play/pause flips the pause state, advance and rewind move by
    /// half a second of frames of `channels` samples (rewind stops at the start).
    pub fn handle(&mut self, act: Action, channels: usize, samples_per_second: u32)
        requires
            act is Advance ==> channels * (samples_per_second / 2) <= usize::MAX
                && old(self).player_head + channels * (samples_per_second / 2) <= usize::MAX,
            act is Rewind ==> channels * (samples_per_second / 2) <= usize::MAX,
        ensures
            *final(self) == old(self).after(act, channels, samples_per_second),
    {
        match act {
            Action::PlayPause => {
                self.paused = !self.paused;
            },
            Action::Advance => {
                self.player_head = self.player_head + channels * (samples_per_second / 2) as usize;
            },
            Action::Rewind => {
                self.player_head = match self.player_head.checked_sub(
                    channels * (samples_per_second / 2) as usize,
                ) {
                    Some(h) => h,
                    None => 0,
                };
            },
        }
    }

    /// Fills an output buffer: silence while paused, else the next samples from the head;
    /// at the end of the song (or with the head skipped past it) the rest of the buffer is
    /// silence and playback pauses.
    pub fn fill(&mut self, samples: &[i16], data: &mut [i16])
        ensures
            final(data)@ == old(self).fill_output(samples@, old(data)@.len() as int),
            *final(self) == old(self).after_fill(samples@.len() as int, old(data)@.len() as int),
    {
        let n = data.len();
        if self.paused {
            let mut i: usize = 0;
            while i < n
                invariant
                    n == data@.len(),
                    i <= n,
                    forall|j: int| 0 <= j < i ==> data@[j] == 0i16,
                decreases n - i,
            {
                data[i] = 0;
                i += 1;
            }
            assert(data@ =~= Seq::new(n as nat, |i: int| 0i16));
            return;
        }
        let len = samples.len();
        let head = if self.player_head <= len {
            self.player_head
        } else {
            len
        };
        let consumed = if len - head >= n {
            n
        } else {
            len - head
        };
        let mut i: usize = 0;
        while i < n
            invariant
                n == data@.len(),
                len == samples@.len(),
                head <= len,
                consumed <= n,
                head + consumed <= len,
                i <= n,
                forall|j: int| 0 <= j < i ==> data@[j] == if j < consumed { samples@[head + j] } else { 0i16 },
            decreases n - i,
        {
            if i < consumed {
                data[i] = samples[head + i];
            } else {
                data[i] = 0;
            }
            i += 1;
        }
        self.player_head = head + consumed;
        if consumed < n {
            self.paused = true;
            assert(data@ =~= samples@.subrange(head as int, len as int) + Seq::new(
                (head + n - len) as nat,
                |i: int| 0i16,
            ));
        } else {
            assert(data@ =~= samples@.subrange(head as int, head + n));
        }
    }
}

/// The pixel scale after the zoom requests of one input event: zooming in enlarges every
/// image pixel by one screen pixel, then zooming out shrinks it by one unless it is already
/// a single screen pixel.
pub open spec fn zoomed(pixel_scale: int, zoom_in: bool, zoom_out: bool) -> int {
    let bigger = if zoom_in {
        pixel_scale + 1
    } else {
        pixel_scale
    };
    if zoom_out && bigger > 1 {
        bigger - 1
    } else {
        bigger
    }
}

/// Applies the zoom requests of one input event to the pixel scale (see [`zoomed`]).
pub fn zoom(pixel_scale: u32, zoom_in: bool, zoom_out: bool) -> (r: u32)
    requires
        zoom_in ==> pixel_scale < u32::MAX,
    ensures
        r == zoomed(pixel_scale as int, zoom_in, zoom_out),
{
    let mut scale = pixel_scale;
    if zoom_in {
        scale += 1;
    }
    if zoom_out && scale > 1 {
        scale -= 1;
    }
    scale
}

/// Zooming changes the pixel scale by at most one step and never takes it below a single
/// screen pixel: zooming in alone raises it by one, zooming out alone lowers any scale above
/// one by one and leaves a scale of one as it is, and zooming in and out together, or
/// neither, leaves it as it was.
pub proof fn lemma_zoom_steps(pixel_scale: int, zoom_in: bool, zoom_out: bool)
    requires
        pixel_scale >= 1,
    ensures
        zoomed(pixel_scale, zoom_in, zoom_out) >= 1,
        zoom_in && !zoom_out ==> zoomed(pixel_scale, zoom_in, zoom_out) == pixel_scale + 1,
        !zoom_in && zoom_out && pixel_scale > 1 ==> zoomed(pixel_scale, zoom_in, zoom_out) == pixel_scale
            - 1,
        !zoom_in && zoom_out && pixel_scale == 1 ==> zoomed(pixel_scale, zoom_in, zoom_out) == 1,
        zoom_in == zoom_out ==> zoomed(pixel_scale, zoom_in, zoom_out) == pixel_scale,
{
}

/// The first frame shown, the last frame shown and the column of the playback bar, for a
/// view `frame_width` columns wide centred on frame `center` of a song of `n_frames`
/// frames; one column spans one step of frames.
pub fn frame_bounds(center: usize, n_frames: usize, frame_width: usize) -> (r: (usize, usize, usize))
    requires
        (frame_width / 2) * STEP_SIZE <= usize::MAX,
        frame_width * STEP_SIZE <= usize::MAX,
        ({
            let c = if center <= n_frames { center as int } else { n_frames as int };
            let half = (frame_width / 2) * STEP_SIZE;
            (if c >= half { c - half } else { 0 }) + frame_width * STEP_SIZE <= usize::MAX
        }),
    ensures
        ({
            let c = if center <= n_frames { center as int } else { n_frames as int };
            let half = (frame_width / 2) * STEP_SIZE;
            let span = frame_width * STEP_SIZE;
            let left0 = if c >= half { c - half } else { 0 };
            let right_max = if n_frames >= WINDOW_SIZE { n_frames - WINDOW_SIZE } else { 0 };
            let (left, right) = if left0 + span > right_max {
                (if right_max >= span { right_max - span } else { 0 }, right_max)
            } else {
                (left0, left0 + span)
            };
            &&& r.0 == left
            &&& r.1 == right
            &&& left <= c
            &&& r.2 == (c - left) / STEP_SIZE as int
        }),
{
    let center = if center <= n_frames {
        center
    } else {
        n_frames
    };
    let half = (frame_width / 2) * STEP_SIZE;
    let span = frame_width * STEP_SIZE;
    let mut left = center.saturating_sub(half);
    let mut right = left + span;
    let right_max = n_frames.saturating_sub(WINDOW_SIZE);
    if right > right_max {
        right = right_max;
        left = right.saturating_sub(span);
    }
    let bar_location = (center - left) / STEP_SIZE;
    (left, right, bar_location)
}

} // verus!

verus! {

/// Pausing and resuming at the same instant does not move the song position at that
/// instant or any later one.
pub proof fn lemma_pause_resume_keeps_position(s: SongTime, t: u128, now: u128)
    requires
        s.started_playing matches Some(i) ==> i <= t,
        t <= now,
        s.spec_dur(t) <= MAX_DURATION_NANOS,
    ensures
        s.after(Action::PlayPause, t).after(Action::PlayPause, t).spec_dur(now) == s.spec_dur(now),
        s.after(Action::PlayPause, t).after(Action::PlayPause, t).started_playing is Some
            == s.started_playing is Some,
{
}

/// Advancing never moves the position past the end of the song.
pub proof fn lemma_advance_stops_at_end(s: SongTime, now: u128)
    requires
        s.spec_dur(now) + SKIP_NANOS <= MAX_DURATION_NANOS,
    ensures
        s.after(Action::Advance, now).spec_dur(now) <= s.song_length,
{
}

/// While the clock is stopped the position does not change with time.
pub proof fn lemma_paused_position_is_fixed(s: SongTime, t1: u128, t2: u128)
    requires
        s.started_playing is None,
    ensures
        s.spec_dur(t1) == s.spec_dur(t2),
{
}

/// Rewinding moves the position back by half a second, or to the start.
pub proof fn lemma_rewind_moves_back(s: SongTime, now: u128)
    requires
        s.started_playing matches Some(i) ==> i <= now,
        s.spec_dur(now) <= MAX_DURATION_NANOS,
    ensures
        s.after(Action::Rewind, now).spec_dur(now) == if s.spec_dur(now) >= SKIP_NANOS {
            s.spec_dur(now) - SKIP_NANOS
        } else {
            0
        },
{
}

/// Pressing play/pause twice leaves the audio cursor as it was.
pub proof fn lemma_play_pause_twice(c: AudioCursor, channels: usize, samples_per_second: u32)
    ensures
        c.after(Action::PlayPause, channels, samples_per_second).after(
            Action::PlayPause,
            channels,
            samples_per_second,
        ) == c,
{
}

/// Rewinding right after advancing returns the audio cursor to where it was.
pub proof fn lemma_advance_then_rewind(c: AudioCursor, channels: usize, samples_per_second: u32)
    requires
        c.player_head + AudioCursor::skip(channels, samples_per_second) <= usize::MAX,
    ensures
        c.after(Action::Advance, channels, samples_per_second).after(
            Action::Rewind,
            channels,
            samples_per_second,
        ) == c,
{
}

/// While playing, two consecutive buffers receive consecutive samples of the song: together
/// they hold what one buffer of both lengths would.
pub proof fn lemma_fills_are_contiguous(c: AudioCursor, samples: Seq<i16>, n1: int, n2: int)
    requires
        !c.paused,
        0 <= n1,
        0 <= n2,
        c.player_head <= samples.len(),
        samples.len() <= usize::MAX,
    ensures
        c.player_head + n1 <= samples.len() ==> c.fill_output(samples, n1) + c.after_fill(
            samples.len() as int,
            n1,
        ).fill_output(samples, n2) == c.fill_output(samples, n1 + n2),
        c.player_head + n1 <= samples.len() ==> c.after_fill(samples.len() as int, n1).after_fill(
            samples.len() as int,
            n2,
        ) == c.after_fill(samples.len() as int, n1 + n2),
{
    let h = c.player_head as int;
    let len = samples.len() as int;
    if h + n1 <= len {
        if h + n1 + n2 <= len {
            assert(samples.subrange(h, h + n1) + samples.subrange(h + n1, h + n1 + n2) =~= samples.subrange(
                h,
                h + n1 + n2,
            ));
        } else {
            assert(samples.subrange(h, h + n1) + (samples.subrange(h + n1, len) + Seq::new(
                (h + n1 + n2 - len) as nat,
                |i: int| 0i16,
            )) =~= samples.subrange(h, len) + Seq::new((h + n1 + n2 - len) as nat, |i: int| 0i16));
        }
    }
}


/// Advancing a playing clock whose position plus half a second is still inside the song
/// moves the position at that instant forward by exactly half a second, and it keeps
/// playing: the position keeps growing with the clock from there.
pub proof fn lemma_advance_while_playing(s: SongTime, i: u128, now: u128)
    requires
        s.started_playing == Some(i),
        i <= now,
        s.start_timestamp + (now - i) + 500_000_000 < s.song_length,
    ensures
        ({
            let r = s.after(Action::Advance, now);
            &&& r.song_length == s.song_length
            &&& r.started_playing matches Some(j) && j <= now && r.start_timestamp + (now - j)
                == s.start_timestamp + (now - i) + 500_000_000
            &&& forall|later: u128|
                later >= now ==> #[trigger] r.spec_dur(later) == s.start_timestamp + (later - i)
                    + 500_000_000
        }),
{
}

/// Advancing a stopped clock whose position plus half a second is still inside the song
/// moves its position forward by exactly half a second, and it stays stopped.
pub proof fn lemma_advance_while_paused(s: SongTime, now: u128)
    requires
        s.started_playing is None,
        s.start_timestamp + 500_000_000 < s.song_length,
    ensures
        s.after(Action::Advance, now) == (SongTime {
            start_timestamp: (s.start_timestamp + 500_000_000) as u128,
            started_playing: None,
            song_length: s.song_length,
        }),
{
}

/// Advancing to or past the end of the song stops the clock at the end.
pub proof fn lemma_advance_past_end(s: SongTime, now: u128)
    requires
        s.start_timestamp + (match s.started_playing {
            Some(i) => if now >= i { now - i } else { 0 },
            None => 0,
        }) + 500_000_000 >= s.song_length,
    ensures
        s.after(Action::Advance, now) == (SongTime {
            start_timestamp: s.song_length,
            started_playing: None,
            song_length: s.song_length,
        }),
{
}

/// Rewinding a playing clock moves the position at that instant back by exactly half a
/// second (or to the start) and it keeps playing from there.
pub proof fn lemma_rewind_while_playing(s: SongTime, i: u128, now: u128)
    requires
        s.started_playing == Some(i),
        i <= now,
        s.start_timestamp + (now - i) <= u128::MAX,
    ensures
        ({
            let r = s.after(Action::Rewind, now);
            let p = s.start_timestamp + (now - i);
            &&& r.song_length == s.song_length
            &&& r.started_playing matches Some(j) && j <= now && r.start_timestamp + (now - j) == (if p
                >= 500_000_000 {
                p - 500_000_000
            } else {
                0
            })
        }),
{
}

/// Rewinding a stopped clock moves its position back by exactly half a second (or to the
/// start), and it stays stopped.
pub proof fn lemma_rewind_while_paused(s: SongTime, now: u128)
    requires
        s.started_playing is None,
    ensures
        s.after(Action::Rewind, now) == (SongTime {
            start_timestamp: (if s.start_timestamp >= 500_000_000 {
                s.start_timestamp - 500_000_000
            } else {
                0
            }) as u128,
            started_playing: None,
            song_length: s.song_length,
        }),
{
}

/// Pausing a playing clock freezes its position at the instant of the pause; resuming a
/// stopped clock starts it from its position at that instant.
pub proof fn lemma_play_pause_position(s: SongTime, now: u128)
    requires
        s.started_playing matches Some(i) ==> i <= now && s.start_timestamp + (now - i) <= u128::MAX,
    ensures
        ({
            let r = s.after(Action::PlayPause, now);
            &&& r.song_length == s.song_length
            &&& match s.started_playing {
                Some(i) => r.started_playing is None && r.start_timestamp == s.start_timestamp + (now
                    - i),
                None => r.started_playing == Some(now) && r.start_timestamp == s.start_timestamp,
            }
        }),
{
}

/// Skipping forward moves the audio head by exactly half a second of frames of the given
/// channel count; skipping back moves it back by as much, stopping at the start; play/pause
/// flips the pause state and leaves the head alone.
pub proof fn lemma_audio_skip_amounts(c: AudioCursor, channels: usize, samples_per_second: u32)
    ensures
        ({
            let half = channels * (samples_per_second / 2);
            &&& c.player_head + half <= usize::MAX ==> c.after(
                Action::Advance,
                channels,
                samples_per_second,
            ) == (AudioCursor { player_head: (c.player_head + half) as usize, paused: c.paused })
            &&& c.after(Action::Rewind, channels, samples_per_second) == (AudioCursor {
                player_head: (if c.player_head >= half {
                    c.player_head - half
                } else {
                    0
                }) as usize,
                paused: c.paused,
            })
            &&& c.after(Action::PlayPause, channels, samples_per_second) == (AudioCursor {
                player_head: c.player_head,
                paused: !c.paused,
            })
        }),
{
}

/// Skipping forward by half a second of mono audio at 44.1 kHz moves the head by 22050
/// samples, and of stereo audio by twice that: the skip follows the channel count.
pub proof fn lemma_audio_skip_follows_channels(c: AudioCursor, samples_per_second: u32)
    requires
        c.player_head + 2 * (samples_per_second / 2) <= usize::MAX,
    ensures
        c.after(Action::Advance, 1, samples_per_second).player_head == c.player_head + samples_per_second
            / 2,
        c.after(Action::Advance, 2, samples_per_second).player_head == c.player_head + 2 * (
        samples_per_second / 2),
{
}

} // verus!

verus! {

/// The number of spectrum columns the cache is expected to hold at most.
pub const PRECOMPUTE: usize = 10000;

/// Column `k` of a buffer of spectrum columns laid end to end.
pub open spec fn column<T>(buf: Seq<T>, k: int) -> Seq<T> {
    buf.subrange(k * SPECTRUM_SIZE, k * SPECTRUM_SIZE + SPECTRUM_SIZE)
}

/// The interleaved samples, `channels` per frame, of the window of frames that starts at
/// frame `f`.
pub open spec fn window_at(samples: Seq<i16>, channels: int, f: int) -> Seq<i16> {
    samples.subrange(f * channels, (f + WINDOW_SIZE) * channels)
}

/// How many spectrum columns the spectra of `frames` frames hold: one per whole step of
/// frames past the first window.
pub open spec fn n_columns(frames: int) -> int {
    if frames >= WINDOW_SIZE {
        (frames - WINDOW_SIZE) / (STEP_SIZE as int)
    } else {
        0
    }
}

/// What the cache needs of a function computing spectra from interleaved samples of
/// `channels` channels: it accepts any samples; it returns one column of `SPECTRUM_SIZE`
/// values per whole step of frames past the first window; and its column `k` depends only
/// on the window of frames that starts `k` steps in.
pub open spec fn spectra_ok<T, F: Fn(&[i16]) -> Vec<T>>(spectra: F, channels: int) -> bool {
    &&& forall|s: &[i16]| #[trigger] spectra.requires((s,))
    &&& forall|s: &[i16], v: Vec<T>| #[trigger]
        spectra.ensures((s,), v) ==> v@.len() == n_columns(s@.len() as int / channels) * SPECTRUM_SIZE
    &&& forall|s1: &[i16], v1: Vec<T>, k1: int, s2: &[i16], v2: Vec<T>, k2: int|
        #![trigger spectra.ensures((s1,), v1), spectra.ensures((s2,), v2), column(v1@, k1), column(v2@, k2)]
        spectra.ensures((s1,), v1) && spectra.ensures((s2,), v2) && 0 <= k1 < n_columns(
            s1@.len() as int / channels,
        ) && 0 <= k2 < n_columns(s2@.len() as int / channels) && window_at(
            s1@,
            channels,
            k1 * STEP_SIZE,
        ) == window_at(s2@, channels, k2 * STEP_SIZE) ==> column(v1@, k1) == column(v2@, k2)
}

/// `col` is the column that `spectra` gives for the window of `samples` that starts at
/// frame `f`.
pub open spec fn is_spectrum_column<T, F: Fn(&[i16]) -> Vec<T>>(
    spectra: F,
    samples: Seq<i16>,
    channels: int,
    f: int,
    col: Seq<T>,
) -> bool {
    exists|s: &[i16], v: Vec<T>, k: int|
        #![trigger spectra.ensures((s,), v), column(v@, k)]
        spectra.ensures((s,), v) && 0 <= k < n_columns(s@.len() as int / channels) && window_at(
            s@,
            channels,
            k * STEP_SIZE,
        ) == window_at(samples, channels, f) && column(v@, k) == col
}

/// The `n` columns of `buf` are the spectra of the windows of `samples` starting at frame
/// `first` and every step after it.
pub open spec fn columns_of<T, F: Fn(&[i16]) -> Vec<T>>(
    spectra: F,
    samples: Seq<i16>,
    channels: int,
    first: int,
    n: int,
    buf: Seq<T>,
) -> bool {
    &&& buf.len() == n * SPECTRUM_SIZE
    &&& forall|c: int|
        0 <= c < n ==> is_spectrum_column(
            spectra,
            samples,
            channels,
            first + c * STEP_SIZE,
            #[trigger] column(buf, c),
        )
}

/// `x` rounded up to a multiple of the step.
pub open spec fn ceil_to_step(x: int) -> int {
    if x % STEP_SIZE as int == 0 {
        x
    } else {
        x - x % STEP_SIZE as int + STEP_SIZE
    }
}

/// `x` rounded down to a multiple of the step.
pub open spec fn floor_to_step(x: int) -> int {
    x - x % STEP_SIZE as int
}

/// The furthest right bound of a cache over `len` interleaved samples of `channels`
/// channels: the last step whose window ends within the song.
pub open spec fn right_limit(channels: int, len: int) -> int {
    let frames = len / channels;
    if frames >= WINDOW_SIZE {
        floor_to_step(frames - WINDOW_SIZE)
    } else {
        0
    }
}

/// The right bound of a cache with right bound `rbound` after extending it to
/// `right_frame`: that frame rounded up to a step, within the song's limit, unless the
/// cache already reaches further.
pub open spec fn front_reach(rbound: int, right_frame: int, channels: int, len: int) -> int {
    let up = ceil_to_step(right_frame);
    let target = if up <= right_limit(channels, len) {
        up
    } else {
        right_limit(channels, len)
    };
    if target > rbound {
        target
    } else {
        rbound
    }
}

/// A cache of spectra over a range of frames of a song, one column of `SPECTRUM_SIZE`
/// values per step of frames from `lbound` to `rbound`; it grows to the right and to the
/// left as the view moves, and drops columns that fall behind.
pub struct FftMaker<T> {
    pub fft_buf: std::collections::VecDeque<T>,
    pub rbound: usize,
    pub lbound: usize,
    pub channels: usize,
}

impl<T> FftMaker<T> {
    /// The frame up to which the cache holds columns: one step per column from `lbound`.
    pub open spec fn filled_to(&self) -> int {
        self.lbound + (self.fft_buf@.len() as int / SPECTRUM_SIZE as int) * STEP_SIZE
    }

    /// The cache holds a column for every step from `lbound` to `rbound`.
    pub open spec fn complete(&self) -> bool {
        self.filled_to() == self.rbound
    }

    /// The cache holds, for every step of frames from `lbound` up to `filled_to()`, the
    /// column that `spectra` gives for the window of `samples` starting there; the bounds
    /// are whole steps; the windows of those frames lie within the song; and columns are
    /// missing before `rbound` only where the song ends too soon for another one.
    pub open spec fn wf<F: Fn(&[i16]) -> Vec<T>>(&self, samples: Seq<i16>, spectra: F) -> bool {
        let ch = self.channels as int;
        let filled = self.filled_to();
        &&& 1 <= ch
        &&& self.lbound % STEP_SIZE == 0
        &&& self.rbound % STEP_SIZE == 0
        &&& self.lbound <= filled <= self.rbound
        &&& filled > 0 ==> (filled + WINDOW_SIZE) * ch <= samples.len()
        &&& filled < self.rbound ==> (filled + WINDOW_SIZE + STEP_SIZE) * ch > samples.len()
        &&& spectra_ok(spectra, ch)
        &&& columns_of(
            spectra,
            samples,
            ch,
            self.lbound as int,
            self.fft_buf@.len() as int / SPECTRUM_SIZE as int,
            self.fft_buf@,
        )
    }
}

} // verus!
verus! {

/// Two buffers of `n` columns with equal columns are equal.
proof fn lemma_columns_equal<T>(a: Seq<T>, b: Seq<T>, n: int)
    requires
        n >= 0,
        a.len() == n * SPECTRUM_SIZE,
        b.len() == n * SPECTRUM_SIZE,
        forall|c: int| 0 <= c < n ==> #[trigger] column(a, c) == column(b, c),
    ensures
        a == b,
{
    assert forall|i: int| 0 <= i < a.len() implies a[i] == b[i] by {
        let c = i / 2048;
        let j = i % 2048;
        vstd::arithmetic::div_mod::lemma_fundamental_div_mod(i, 2048);
        assert(0 <= c < n) by (nonlinear_arith)
            requires
                i == 2048 * c + j,
                0 <= j < 2048,
                0 <= i < n * 2048,
        ;
        assert(column(a, c)[j] == a[i]);
        assert(column(b, c)[j] == b[i]);
    }
    assert(a =~= b);
}

/// Buffers of columns laid one after the other hold the columns of consecutive windows.
proof fn lemma_columns_append<T, F: Fn(&[i16]) -> Vec<T>>(
    spectra: F,
    samples: Seq<i16>,
    ch: int,
    first: int,
    n1: int,
    a: Seq<T>,
    n2: int,
    b: Seq<T>,
)
    requires
        n1 >= 0,
        n2 >= 0,
        columns_of(spectra, samples, ch, first, n1, a),
        columns_of(spectra, samples, ch, first + n1 * STEP_SIZE, n2, b),
    ensures
        columns_of(spectra, samples, ch, first, n1 + n2, a + b),
{
    assert forall|c: int| 0 <= c < n1 + n2 implies is_spectrum_column(
        spectra,
        samples,
        ch,
        first + c * STEP_SIZE,
        #[trigger] column(a + b, c),
    ) by {
        if c < n1 {
            assert(column(a + b, c) =~= column(a, c));
        } else {
            assert(column(a + b, c) =~= column(b, c - n1));
            assert(first + c * STEP_SIZE == first + n1 * STEP_SIZE + (c - n1) * STEP_SIZE);
        }
    }
}

/// A run of columns taken out of a buffer holds the columns of its own windows.
proof fn lemma_columns_sub<T, F: Fn(&[i16]) -> Vec<T>>(
    spectra: F,
    samples: Seq<i16>,
    ch: int,
    first: int,
    n: int,
    buf: Seq<T>,
    d: int,
    m: int,
)
    requires
        0 <= d,
        0 <= m,
        d + m <= n,
        columns_of(spectra, samples, ch, first, n, buf),
    ensures
        columns_of(
            spectra,
            samples,
            ch,
            first + d * STEP_SIZE,
            m,
            buf.subrange(d * SPECTRUM_SIZE, (d + m) * SPECTRUM_SIZE),
        ),
{
    let sub = buf.subrange(d * SPECTRUM_SIZE, (d + m) * SPECTRUM_SIZE);
    assert forall|c: int| 0 <= c < m implies is_spectrum_column(
        spectra,
        samples,
        ch,
        first + d * STEP_SIZE + c * STEP_SIZE,
        #[trigger] column(sub, c),
    ) by {
        assert(column(sub, c) =~= column(buf, c + d));
        assert(first + d * STEP_SIZE + c * STEP_SIZE == first + (c + d) * STEP_SIZE);
    }
}

/// What `spectra` returns for the interleaved samples of the frames from `first` on, up to
/// sample `e`, holds the columns of the windows that start a whole number of steps in and
/// leave a step to spare before the samples end.
proof fn lemma_fresh_columns<T, F: Fn(&[i16]) -> Vec<T>>(
    spectra: F,
    samples: Seq<i16>,
    ch: int,
    first: int,
    e: int,
    s: &[i16],
    v: Vec<T>,
)
    requires
        spectra_ok(spectra, ch),
        ch >= 1,
        first >= 0,
        first * ch <= e <= samples.len(),
        s@ == samples.subrange(first * ch, e),
        spectra.ensures((s,), v),
    ensures
        ({
            let n = n_columns(s@.len() as int / ch);
            &&& n >= 0
            &&& forall|c: int|
                0 <= c < n ==> #[trigger] window_at(s@, ch, c * STEP_SIZE) == window_at(
                    samples,
                    ch,
                    first + c * STEP_SIZE,
                )
            &&& columns_of(spectra, samples, ch, first, n, v@)
            &&& n > 0 ==> (first + n * STEP_SIZE + WINDOW_SIZE) * ch <= e
        }),
{
    let len = s@.len() as int;
    let m = len / ch;
    let n = n_columns(m);
    vstd::arithmetic::div_mod::lemma_fundamental_div_mod(len, ch);
    assert(m >= 0 && m * ch <= len) by (nonlinear_arith)
        requires
            len == ch * m + len % ch,
            0 <= len % ch < ch,
            len >= 0,
    ;
    if m >= WINDOW_SIZE {
        vstd::arithmetic::div_mod::lemma_fundamental_div_mod(m - WINDOW_SIZE, 256);
    }
    assert(n >= 0 && n * STEP_SIZE + WINDOW_SIZE <= m || n == 0);
    assert forall|c: int| 0 <= c < n implies #[trigger] window_at(s@, ch, c * STEP_SIZE) == window_at(
        samples,
        ch,
        first + c * STEP_SIZE,
    ) by {
        let lo = c * STEP_SIZE;
        assert(lo * ch + first * ch == (first + lo) * ch) by (nonlinear_arith);
        assert((lo + WINDOW_SIZE) * ch + first * ch == (first + lo + WINDOW_SIZE) * ch)
            by (nonlinear_arith);
        assert(0 <= lo * ch <= (lo + WINDOW_SIZE) * ch <= m * ch) by (nonlinear_arith)
            requires
                0 <= c < n,
                lo == c * 256,
                n * 256 + 4096 <= m,
                ch >= 1,
        ;
        assert(window_at(s@, ch, lo) =~= window_at(samples, ch, first + lo));
    }
    assert forall|c: int| 0 <= c < n implies is_spectrum_column(
        spectra,
        samples,
        ch,
        first + c * STEP_SIZE,
        #[trigger] column(v@, c),
    ) by {
        assert(window_at(s@, ch, c * STEP_SIZE) == window_at(samples, ch, first + c * STEP_SIZE));
    }
    if n > 0 {
        assert((first + n * STEP_SIZE + WINDOW_SIZE) * ch <= first * ch + m * ch) by (nonlinear_arith)
            requires
                n * 256 + 4096 <= m,
                ch >= 1,
        ;
    }
}

/// The samples of `k` whole frames from frame `first` on are `k` frames long.
proof fn lemma_whole_frames(first: int, k: int, ch: int)
    requires
        first >= 0,
        k >= 0,
        ch >= 1,
    ensures
        (first + k) * ch - first * ch == k * ch,
        (k * ch) / ch == k,
        first * ch <= (first + k) * ch,
{
    assert((first + k) * ch - first * ch == k * ch) by (nonlinear_arith);
    assert(k * ch >= 0) by (nonlinear_arith)
        requires
            k >= 0,
            ch >= 1,
    ;
    vstd::arithmetic::div_mod::lemma_div_by_multiple(k, ch);
    assert(k * ch == ch * k) by (nonlinear_arith);
}

/// Extending a complete cache with right bound `rbound` past the end of the song: the
/// samples from `rbound` on hold `len / ch - rbound` frames, and their spectra fill the
/// cache up to the song's limit, where no further column fits.
proof fn lemma_clipped_fill(rbound: int, ch: int, len: int)
    requires
        ch >= 1,
        rbound >= 0,
        rbound % STEP_SIZE as int == 0,
        rbound * ch < len,
    ensures
        ({
            let m = (len - rbound * ch) / ch;
            let n = n_columns(m);
            let filled = rbound + n * STEP_SIZE;
            &&& m == len / ch - rbound
            &&& filled == (if right_limit(ch, len) > rbound {
                right_limit(ch, len)
            } else {
                rbound
            })
            &&& (filled + WINDOW_SIZE + STEP_SIZE) * ch > len
        }),
{
    let f = len / ch;
    vstd::arithmetic::div_mod::lemma_fundamental_div_mod(len, ch);
    assert(len - rbound * ch == (f - rbound) * ch + len % ch) by (nonlinear_arith)
        requires
            len == ch * f + len % ch,
    ;
    vstd::arithmetic::div_mod::lemma_fundamental_div_mod_converse(
        len - rbound * ch,
        ch,
        f - rbound,
        len % ch,
    );
    let m = f - rbound;
    let n = n_columns(m);
    if m >= WINDOW_SIZE {
        vstd::arithmetic::div_mod::lemma_fundamental_div_mod(m - WINDOW_SIZE, 256);
        vstd::arithmetic::div_mod::lemma_fundamental_div_mod(f - WINDOW_SIZE, 256);
        vstd::arithmetic::div_mod::lemma_fundamental_div_mod(rbound, 256);
        assert((f - WINDOW_SIZE) % 256 == (m - WINDOW_SIZE) % 256) by {
            vstd::arithmetic::div_mod::lemma_mod_add_multiples_vanish(m - WINDOW_SIZE, 256);
            vstd::arithmetic::div_mod::lemma_mod_multiples_vanish(rbound / 256, m - WINDOW_SIZE, 256);
        }
    }
    lemma_frames_fit(ch, len, rbound + n * STEP_SIZE + WINDOW_SIZE + STEP_SIZE);
}

/// A whole number `a` of frames of `ch` samples fits in `len` samples exactly when it is
/// at most `len / ch`.
proof fn lemma_frames_fit(ch: int, len: int, a: int)
    requires
        ch >= 1,
        len >= 0,
        a >= 0,
    ensures
        a * ch <= len <==> a <= len / ch,
{
    let frames = len / ch;
    vstd::arithmetic::div_mod::lemma_fundamental_div_mod(len, ch);
    if a <= frames {
        assert(a * ch <= frames * ch) by (nonlinear_arith)
            requires
                a <= frames,
                ch >= 1,
        ;
        assert(frames * ch == ch * frames) by (nonlinear_arith);
    } else {
        assert(a * ch >= (frames + 1) * ch) by (nonlinear_arith)
            requires
                a >= frames + 1,
                ch >= 1,
        ;
        assert((frames + 1) * ch == ch * frames + ch) by (nonlinear_arith);
    }
}

/// A step-aligned frame `x` is within the right limit of a cache over `len` samples of
/// `ch` channels exactly when it is the first frame or its window ends within the song.
proof fn lemma_right_limit(ch: int, len: int, x: int)
    requires
        ch >= 1,
        len >= 0,
        x >= 0,
        x % STEP_SIZE as int == 0,
    ensures
        x <= right_limit(ch, len) <==> (x == 0 || (x + WINDOW_SIZE) * ch <= len),
        right_limit(ch, len) % STEP_SIZE as int == 0,
        right_limit(ch, len) >= 0,
        right_limit(ch, len) > 0 ==> (right_limit(ch, len) + WINDOW_SIZE) * ch <= len,
{
    let frames = len / ch;
    vstd::arithmetic::div_mod::lemma_fundamental_div_mod(len, ch);
    assert(0 <= len % ch < ch);
    assert(frames >= 0) by (nonlinear_arith)
        requires
            len == ch * frames + len % ch,
            len >= 0,
            0 <= len % ch < ch,
    ;
    lemma_frames_fit(ch, len, x + WINDOW_SIZE);
    if frames >= WINDOW_SIZE {
        lemma_frames_fit(ch, len, floor_to_step(frames - WINDOW_SIZE) + WINDOW_SIZE);
    }
    if frames >= WINDOW_SIZE {
        let r = frames - WINDOW_SIZE;
        assert(r - r % 256 <= r);
        assert((r - r % 256) % 256 == 0) by {
            vstd::arithmetic::div_mod::lemma_fundamental_div_mod(r, 256);
            vstd::arithmetic::div_mod::lemma_mod_multiples_basic(r / 256, 256);
        }
        if x <= r {
            vstd::arithmetic::div_mod::lemma_fundamental_div_mod(r, 256);
            vstd::arithmetic::div_mod::lemma_fundamental_div_mod(x, 256);
            assert(x / 256 <= r / 256) by {
                vstd::arithmetic::div_mod::lemma_div_is_ordered(x, r, 256);
            }
            assert(x <= r - r % 256);
        }
        assert(x + WINDOW_SIZE >= 0);
    } else {
        if x > 0 {
            assert(x + WINDOW_SIZE > frames);
        }
    }
}

} // verus!
verus! {

impl<T: Copy> FftMaker<T> {
    /// An empty cache for a song with the given channels.
    pub fn new(c: crate::parser::Channels) -> (m: Self)
        ensures
            m.fft_buf@ == Seq::<T>::empty(),
            m.lbound == 0,
            m.rbound == 0,
            m.channels == (if c is One { 1int } else { 2int }),
    {
        FftMaker {
            fft_buf: std::collections::VecDeque::with_capacity(PRECOMPUTE * SPECTRUM_SIZE),
            lbound: 0,
            rbound: 0,
            channels: c.count() as usize,
        }
    }

    /// Extends the cache to the right up to `right_frame` (rounded up to a step), with the
    /// columns that `spectra` computes from the samples from the right bound on; at the end
    /// of the song those samples are cut short and fewer columns come back.
    #[verifier::spinoff_prover]
    #[verifier::rlimit(60)]
    pub fn extend_front<F: Fn(&[i16]) -> Vec<T>>(&mut self, right_frame: usize, samples: &[i16], spectra: &F)
        requires
            old(self).wf(samples@, *spectra),
            right_frame + STEP_SIZE <= usize::MAX,
            ceil_to_step(right_frame as int) > old(self).rbound ==> (ceil_to_step(right_frame as int)
                + WINDOW_SIZE) * old(self).channels <= usize::MAX,
        ensures
            final(self).wf(samples@, *spectra),
            final(self).channels == old(self).channels,
            final(self).lbound == old(self).lbound,
            ({
                let up = ceil_to_step(right_frame as int);
                let ch = old(self).channels as int;
                let len = samples@.len() as int;
                &&& if up <= old(self).rbound || old(self).rbound * ch >= len {
                    *final(self) == *old(self)
                } else {
                    &&& final(self).rbound == up
                    &&& exists|s: &[i16], v: Vec<T>|
                        #![trigger spectra.ensures((s,), v)]
                        s@ == samples@.subrange(
                            old(self).rbound * ch,
                            if (up + WINDOW_SIZE) * ch <= len {
                                (up + WINDOW_SIZE) * ch
                            } else {
                                len
                            },
                        ) && spectra.ensures((s,), v) && final(self).fft_buf@ == old(self).fft_buf@ + v@
                }
                &&& final(self).filled_to() == (if old(self).complete() && old(self).rbound * ch < len {
                    front_reach(old(self).rbound as int, right_frame as int, ch, len)
                } else {
                    old(self).filled_to()
                })
                &&& old(self).complete() && (up + WINDOW_SIZE) * ch <= len ==> final(self).complete()
            }),
    {
        let ch = self.channels;
        let true_right = ceil_step(right_frame);
        assert(true_right == ceil_to_step(right_frame as int));
        if true_right <= self.rbound {
            proof {
                if self.complete() {
                    lemma_right_limit(ch as int, samples@.len() as int, true_right as int);
                }
            }
            return;
        }
        proof {
            assert(self.rbound * ch <= (true_right + WINDOW_SIZE) * ch) by (nonlinear_arith)
                requires
                    self.rbound < true_right,
                    ch >= 1,
            ;
            assert(true_right + WINDOW_SIZE <= (true_right + WINDOW_SIZE) * ch) by (nonlinear_arith)
                requires
                    ch >= 1,
                    true_right >= 0,
            ;
        }
        let raw_l = self.rbound * ch;
        let raw_r = (true_right + WINDOW_SIZE) * ch;
        let len = samples.len();
        if raw_l >= len {
            return;
        }
        let end = if raw_r <= len {
            raw_r
        } else {
            len
        };
        let ghost old_buf = self.fft_buf@;
        let ghost m = old_buf.len() as int / SPECTRUM_SIZE as int;
        let ghost rb = self.rbound as int;
        let ghost lb = self.lbound as int;
        let mono = vstd::slice::slice_subrange(samples, raw_l, end);
        let new_ffts = spectra(mono);
        proof {
            lemma_fresh_columns(*spectra, samples@, ch as int, rb, end as int, mono, new_ffts);
        }
        let mut i: usize = 0;
        while i < new_ffts.len()
            invariant
                i <= new_ffts@.len(),
                old_buf == old(self).fft_buf@,
                self.rbound == old(self).rbound,
                self.lbound == old(self).lbound,
                self.channels == old(self).channels,
                self.fft_buf@ == old_buf + new_ffts@.subrange(0, i as int),
            decreases new_ffts@.len() - i,
        {
            self.fft_buf.push_back(new_ffts[i]);
            i += 1;
            assert(self.fft_buf@ =~= old_buf + new_ffts@.subrange(0, i as int));
        }
        assert(new_ffts@.subrange(0, new_ffts@.len() as int) =~= new_ffts@);
        self.rbound = true_right;
        proof {
            let chi = ch as int;
            let leni = len as int;
            let up = true_right as int;
            let n = n_columns(mono@.len() as int / chi);
            let filled = lb + m * STEP_SIZE;
            assert(spectra.ensures((mono,), new_ffts));
            vstd::arithmetic::div_mod::lemma_div_by_multiple(m + n, 2048);
            assert(old_buf.len() + new_ffts@.len() == (m + n) * 2048);
            assert(self.fft_buf@.len() / 2048 == m + n);
            if filled == rb {
                lemma_columns_append(*spectra, samples@, chi, lb, m, old_buf, n, new_ffts@);
                if raw_r <= len {
                    lemma_whole_frames(rb, up + WINDOW_SIZE - rb, chi);
                    assert(mono@.len() as int / chi == up + WINDOW_SIZE - rb);
                    vstd::arithmetic::div_mod::lemma_fundamental_div_mod(up - rb, 256);
                    assert(n == (up - rb) / 256);
                    assert(up == rb + n * STEP_SIZE);
                    lemma_right_limit(chi, leni, up);
                } else {
                    lemma_clipped_fill(rb, chi, leni);
                    assert(mono@.len() == leni - rb * chi);
                    lemma_right_limit(chi, leni, rb);
                    lemma_right_limit(chi, leni, up);
                    if n == 0 {
                        assert(rb + n * STEP_SIZE == rb);
                    }
                    assert(up > right_limit(chi, leni));
                }
            } else {
                // a cache that already stops short stays as it is: no further window fits
                assert((filled + WINDOW_SIZE + STEP_SIZE) * chi <= (up + WINDOW_SIZE) * chi)
                    by (nonlinear_arith)
                    requires
                        filled + STEP_SIZE <= rb,
                        rb < up,
                        chi >= 1,
                ;
                assert(mono@.len() == leni - rb * chi);
                lemma_frames_fit(chi, leni, filled + WINDOW_SIZE + STEP_SIZE);
                lemma_frames_fit(chi, leni, rb);
                vstd::arithmetic::div_mod::lemma_fundamental_div_mod(leni, chi);
                assert(leni - rb * chi == (leni / chi - rb) * chi + leni % chi) by (nonlinear_arith)
                    requires
                        leni == chi * (leni / chi) + leni % chi,
                ;
                vstd::arithmetic::div_mod::lemma_fundamental_div_mod_converse(
                    leni - rb * chi,
                    chi,
                    leni / chi - rb,
                    leni % chi,
                );
                assert(mono@.len() == leni - rb * chi);
                assert(n == 0);
                assert(self.fft_buf@ =~= old_buf);
            }
        }
    }

    /// Extends the cache to the left down to `start_frame` (rounded down to a step), with
    /// the columns that `spectra` computes for the new windows.
    #[verifier::spinoff_prover]
    #[verifier::rlimit(60)]
    pub fn extend_back<F: Fn(&[i16]) -> Vec<T>>(&mut self, start_frame: usize, samples: &[i16], spectra: &F)
        requires
            old(self).wf(samples@, *spectra),
        ensures
            final(self).wf(samples@, *spectra),
            final(self).channels == old(self).channels,
            final(self).rbound == old(self).rbound,
            final(self).filled_to() == old(self).filled_to(),
            final(self).lbound == (if floor_to_step(start_frame as int) < old(self).lbound {
                floor_to_step(start_frame as int)
            } else {
                old(self).lbound as int
            }),
            final(self).fft_buf@.subrange(
                final(self).fft_buf@.len() - old(self).fft_buf@.len(),
                final(self).fft_buf@.len() as int,
            ) == old(self).fft_buf@,
    {
        let true_start = floor_step(start_frame);
        if true_start >= self.lbound {
            assert(self.fft_buf@.subrange(0, self.fft_buf@.len() as int) =~= self.fft_buf@);
            return;
        }
        let ch = self.channels;
        let len = samples.len();
        let ghost old_buf = self.fft_buf@;
        let ghost m = old_buf.len() as int / SPECTRUM_SIZE as int;
        let ghost n_new = (self.lbound - true_start) / STEP_SIZE as int;
        let ghost filled = self.filled_to();
        proof {
            assert(filled > 0);
            assert((self.lbound + WINDOW_SIZE) * ch <= (filled + WINDOW_SIZE) * ch) by (nonlinear_arith)
                requires
                    self.lbound <= filled,
                    ch >= 1,
            ;
            assert(self.lbound + WINDOW_SIZE <= (self.lbound + WINDOW_SIZE) * ch) by (nonlinear_arith)
                requires
                    ch >= 1,
                    self.lbound >= 0,
            ;
            assert(true_start % 256 == 0) by {
                vstd::arithmetic::div_mod::lemma_fundamental_div_mod(start_frame as int, 256);
                vstd::arithmetic::div_mod::lemma_mod_multiples_basic(start_frame as int / 256, 256);
            }
            vstd::arithmetic::div_mod::lemma_fundamental_div_mod(self.lbound - true_start, 256);
            assert(self.lbound == true_start + n_new * STEP_SIZE);
            lemma_whole_frames(true_start as int, n_new * STEP_SIZE + WINDOW_SIZE, ch as int);
            vstd::arithmetic::div_mod::lemma_div_by_multiple(n_new, 256);
        }
        let raw_l = true_start * ch;
        let raw_r = (self.lbound + WINDOW_SIZE) * ch;
        let end = if raw_r <= len {
            raw_r
        } else {
            len
        };
        let mono = vstd::slice::slice_subrange(samples, raw_l, end);
        let new_ffts = spectra(mono);
        proof {
            lemma_fresh_columns(*spectra, samples@, ch as int, true_start as int, end as int, mono, new_ffts);
            assert(mono@.len() as int / ch as int == n_new * STEP_SIZE + WINDOW_SIZE);
            assert(n_columns(n_new * STEP_SIZE + WINDOW_SIZE) == n_new);
        }
        let mut i: usize = new_ffts.len();
        while i > 0
            invariant
                i <= new_ffts@.len(),
                old_buf == old(self).fft_buf@,
                self.rbound == old(self).rbound,
                self.lbound == old(self).lbound,
                self.channels == old(self).channels,
                self.fft_buf@ == new_ffts@.subrange(i as int, new_ffts@.len() as int) + old_buf,
            decreases i,
        {
            i -= 1;
            self.fft_buf.push_front(new_ffts[i]);
            assert(self.fft_buf@ =~= new_ffts@.subrange(i as int, new_ffts@.len() as int) + old_buf);
        }
        assert(new_ffts@.subrange(0, new_ffts@.len() as int) =~= new_ffts@);
        proof {
            assert(spectra.ensures((mono,), new_ffts));
            lemma_columns_append(
                *spectra,
                samples@,
                ch as int,
                true_start as int,
                n_new,
                new_ffts@,
                m,
                old_buf,
            );
            vstd::arithmetic::div_mod::lemma_div_by_multiple(n_new + m, 2048);
            assert(self.fft_buf@.len() as int / 2048 == n_new + m);
            assert(self.fft_buf@.subrange(
                self.fft_buf@.len() - old_buf.len(),
                self.fft_buf@.len() as int,
            ) =~= old_buf);
        }
        self.lbound = true_start;
    }

    /// Drops the columns left of `new_left_frame` (rounded down to a step).
    pub fn drop_back(&mut self, new_left_frame: usize)
        requires
            ({
                let new_left = new_left_frame - new_left_frame % STEP_SIZE;
                new_left > old(self).lbound ==> ((new_left - old(self).lbound) / STEP_SIZE as int)
                    * SPECTRUM_SIZE <= old(self).fft_buf@.len()
            }),
        ensures
            ({
                let new_left = new_left_frame - new_left_frame % STEP_SIZE;
                let cols = (new_left - old(self).lbound) / STEP_SIZE as int;
                if new_left <= old(self).lbound {
                    *final(self) == *old(self)
                } else {
                    &&& final(self).fft_buf@ == old(self).fft_buf@.subrange(
                        cols * SPECTRUM_SIZE,
                        old(self).fft_buf@.len() as int,
                    )
                    &&& final(self).lbound == old(self).lbound + cols * STEP_SIZE
                    &&& final(self).rbound == old(self).rbound
                    &&& final(self).channels == old(self).channels
                }
            }),
    {
        let new_left = floor_step(new_left_frame);
        if new_left <= self.lbound {
            return;
        }
        let drop_cols = (new_left - self.lbound) / STEP_SIZE;
        proof {
            assert(drop_cols * STEP_SIZE <= new_left - self.lbound) by (nonlinear_arith)
                requires
                    drop_cols == (new_left - self.lbound) / 256,
                    new_left > self.lbound,
            ;
        }
        let buffered = self.fft_buf.len();
        let tail = self.fft_buf.split_off(drop_cols * SPECTRUM_SIZE);
        self.fft_buf = tail;
        self.lbound = self.lbound + drop_cols * STEP_SIZE;
    }
}

/// Dropping the columns left of a frame no further right than the cache's columns reach
/// keeps the cache well formed: its left bound becomes that frame rounded down to a step
/// (unless it already lies right of it), its right bound and the reach of its columns stay,
/// and it keeps the columns from there on.
pub proof fn lemma_drop_back_keeps_wf<T, F: Fn(&[i16]) -> Vec<T>>(
    before: FftMaker<T>,
    after: FftMaker<T>,
    new_left_frame: int,
    samples: Seq<i16>,
    spectra: F,
)
    requires
        before.wf(samples, spectra),
        0 <= new_left_frame,
        floor_to_step(new_left_frame) <= before.filled_to(),
        ({
            let new_left = floor_to_step(new_left_frame);
            let cols = (new_left - before.lbound) / STEP_SIZE as int;
            if new_left <= before.lbound {
                after == before
            } else {
                &&& after.fft_buf@ == before.fft_buf@.subrange(
                    cols * SPECTRUM_SIZE,
                    before.fft_buf@.len() as int,
                )
                &&& after.lbound == before.lbound + cols * STEP_SIZE
                &&& after.rbound == before.rbound
                &&& after.channels == before.channels
            }
        }),
    ensures
        after.wf(samples, spectra),
        after.rbound == before.rbound,
        after.channels == before.channels,
        after.filled_to() == before.filled_to(),
        after.lbound == (if floor_to_step(new_left_frame) > before.lbound {
            floor_to_step(new_left_frame)
        } else {
            before.lbound as int
        }),
{
    let new_left = floor_to_step(new_left_frame);
    if new_left > before.lbound {
        let n = before.fft_buf@.len() as int / 2048;
        let d = (new_left - before.lbound) / 256;
        assert(new_left % 256 == 0) by {
            vstd::arithmetic::div_mod::lemma_fundamental_div_mod(new_left_frame, 256);
            vstd::arithmetic::div_mod::lemma_mod_multiples_basic(new_left_frame / 256, 256);
        }
        vstd::arithmetic::div_mod::lemma_fundamental_div_mod(new_left - before.lbound, 256);
        assert(before.lbound + d * 256 == new_left);
        assert(d <= n);
        lemma_columns_sub(spectra, samples, before.channels as int, before.lbound as int, n, before.fft_buf@, d, n - d);
        assert(d + (n - d) == n);
        assert(after.fft_buf@.len() == (n - d) * 2048);
        vstd::arithmetic::div_mod::lemma_div_by_multiple(n - d, 2048);
    }
}

/// Extending a cache three windows past a step-aligned frame makes it reach that frame
/// exactly when it already did or the frame's window ends within the song.
proof fn lemma_front_reach_covers(rbound: int, ef: int, ch: int, len: int)
    requires
        ch >= 1,
        len >= 0,
        ef >= 0,
        rbound >= 0,
        ef % STEP_SIZE as int == 0,
    ensures
        ef <= front_reach(rbound, ef + 3 * WINDOW_SIZE, ch, len) <==> (ef <= rbound || (ef
            + WINDOW_SIZE) * ch <= len),
{
    let target = ef + 3 * WINDOW_SIZE;
    lemma_right_limit(ch, len, ef);
    assert(ef <= ceil_to_step(target));
}

/// After extending a cache three windows past a step-aligned frame `ef`, its columns reach
/// `ef` exactly when they already did or the window of `ef` ends within the song.
proof fn lemma_cover_after_front(
    was_complete: bool,
    rbound: int,
    filled: int,
    filled_after: int,
    ef: int,
    ch: int,
    len: int,
)
    requires
        ch >= 1,
        len >= 0,
        ef >= 0,
        0 <= filled <= rbound,
        ef % STEP_SIZE as int == 0,
        filled % STEP_SIZE as int == 0,
        was_complete == (filled == rbound),
        filled < rbound ==> (filled + WINDOW_SIZE + STEP_SIZE) * ch > len,
        filled_after == (if was_complete && rbound * ch < len {
            front_reach(rbound, ef + 3 * WINDOW_SIZE, ch, len)
        } else {
            filled
        }),
    ensures
        ef <= filled_after <==> (ef <= filled || (ef + WINDOW_SIZE) * ch <= len),
{
    if was_complete && rbound * ch < len {
        lemma_front_reach_covers(rbound, ef, ch, len);
    } else if was_complete {
        if (ef + WINDOW_SIZE) * ch <= len {
            assert(ef + WINDOW_SIZE <= rbound) by (nonlinear_arith)
                requires
                    (ef + WINDOW_SIZE) * ch <= len,
                    len <= rbound * ch,
                    ch >= 1,
            ;
        }
    } else {
        if (ef + WINDOW_SIZE) * ch <= len {
            lemma_frames_fit(ch, len, ef + WINDOW_SIZE);
            lemma_frames_fit(ch, len, filled + WINDOW_SIZE + STEP_SIZE);
            vstd::arithmetic::div_mod::lemma_fundamental_div_mod(ef, 256);
            vstd::arithmetic::div_mod::lemma_fundamental_div_mod(filled, 256);
            assert(ef < filled + 256);
            assert(ef / 256 <= filled / 256);
        }
    }
}

/// Columns read from a well-formed cache for the frames from `first` on are what `spectra`
/// gives for the samples of those frames directly, whenever they lie within the song.
pub proof fn lemma_cached_columns_are_direct<T, F: Fn(&[i16]) -> Vec<T>>(
    spectra: F,
    samples: Seq<i16>,
    ch: int,
    first: int,
    n: int,
    out: Seq<T>,
    s: &[i16],
    v: Vec<T>,
)
    requires
        spectra_ok(spectra, ch),
        ch >= 1,
        first >= 0,
        n >= 0,
        columns_of(spectra, samples, ch, first, n, out),
        (first + n * STEP_SIZE + WINDOW_SIZE) * ch <= samples.len(),
        s@ == samples.subrange(first * ch, (first + n * STEP_SIZE + WINDOW_SIZE) * ch),
        spectra.ensures((s,), v),
    ensures
        out == v@,
{
    lemma_whole_frames(first, n * STEP_SIZE + WINDOW_SIZE, ch);
    lemma_fresh_columns(spectra, samples, ch, first, (first + n * STEP_SIZE + WINDOW_SIZE) * ch, s, v);
    vstd::arithmetic::div_mod::lemma_div_by_multiple(n, 256);
    assert(s@.len() as int / ch == n * STEP_SIZE + WINDOW_SIZE);
    assert(n_columns(s@.len() as int / ch) == n);
    assert forall|c: int| 0 <= c < n implies #[trigger] column(out, c) == column(v@, c) by {
        assert(is_spectrum_column(spectra, samples, ch, first + c * STEP_SIZE, column(out, c)));
        let (s1, v1, k1) = choose|s1: &[i16], v1: Vec<T>, k1: int|
            #![trigger spectra.ensures((s1,), v1), column(v1@, k1)]
            spectra.ensures((s1,), v1) && 0 <= k1 < n_columns(s1@.len() as int / ch) && window_at(
                s1@,
                ch,
                k1 * STEP_SIZE,
            ) == window_at(samples, ch, first + c * STEP_SIZE) && column(v1@, k1) == column(out, c);
        assert(window_at(s@, ch, c * STEP_SIZE) == window_at(samples, ch, first + c * STEP_SIZE));
        assert(column(v1@, k1) == column(v@, c));
    }
    lemma_columns_equal(out, v@, n);
}

} // verus!
verus! {

impl<T: Copy> FftMaker<T> {
    /// Fills `out` with the spectra of the frames from `start_frame` (rounded down to a
    /// step) on, one column of `SPECTRUM_SIZE` values per step: grows the cache to three
    /// windows past them and one window before them, copies their columns, then drops the
    /// columns more than a window before them. Returns `false`, leaving `out` as it was,
    /// exactly when the cache's columns did not already reach past those frames and the song
    /// ends before the window that starts right after them.
    #[verifier::spinoff_prover]
    #[verifier::rlimit(80)]
    pub fn yield_columns<F: Fn(&[i16]) -> Vec<T>>(
        &mut self,
        start_frame: usize,
        out: &mut [T],
        samples: &[i16],
        spectra: &F,
    ) -> (copied: bool)
        requires
            old(self).wf(samples@, *spectra),
            old(out)@.len() as int % SPECTRUM_SIZE as int == 0,
            ({
                let ef = floor_to_step(start_frame as int) + (old(out)@.len() as int / SPECTRUM_SIZE as int)
                    * STEP_SIZE;
                &&& ef + 3 * WINDOW_SIZE + STEP_SIZE <= usize::MAX
                &&& ceil_to_step(ef + 3 * WINDOW_SIZE) > old(self).rbound ==> (ceil_to_step(
                    ef + 3 * WINDOW_SIZE,
                ) + WINDOW_SIZE) * old(self).channels <= usize::MAX
            }),
        ensures
            final(self).wf(samples@, *spectra),
            final(self).channels == old(self).channels,
            final(out)@.len() == old(out)@.len(),
            ({
                let sf = floor_to_step(start_frame as int);
                let cols = old(out)@.len() as int / SPECTRUM_SIZE as int;
                let ef = sf + cols * STEP_SIZE;
                let back = if sf >= WINDOW_SIZE {
                    sf - WINDOW_SIZE
                } else {
                    0
                };
                &&& copied == (ef <= old(self).filled_to() || (ef + WINDOW_SIZE) * old(self).channels
                    <= samples@.len())
                &&& copied ==> columns_of(
                    *spectra,
                    samples@,
                    old(self).channels as int,
                    sf,
                    cols,
                    final(out)@,
                )
                &&& copied ==> final(self).lbound == back && ef <= final(self).filled_to()
                &&& !copied ==> final(out)@ == old(out)@
            }),
    {
        let spectrum = SPECTRUM_SIZE;
        let ghost sf0 = floor_to_step(start_frame as int);
        let start_frame = floor_step(start_frame);
        let columns = out.len() / spectrum;
        let end_frame = start_frame + columns * STEP_SIZE;
        let ghost ch = self.channels as int;
        let ghost old_filled = self.filled_to();
        let ghost was_complete = self.complete();
        let ghost old_rbound = self.rbound as int;
        proof {
            assert(start_frame % 256 == 0) by {
                vstd::arithmetic::div_mod::lemma_fundamental_div_mod(start_frame as int, 256);
                vstd::arithmetic::div_mod::lemma_mod_multiples_basic(start_frame as int / 256, 256);
            }
            assert(end_frame % 256 == 0) by {
                vstd::arithmetic::div_mod::lemma_fundamental_div_mod(start_frame as int, 256);
                vstd::arithmetic::div_mod::lemma_mod_multiples_basic(start_frame as int / 256 + columns, 256);
            }
            assert(columns * spectrum == out@.len()) by (nonlinear_arith)
                requires
                    columns == out@.len() / 2048,
                    out@.len() % 2048 == 0,
                    spectrum == 2048,
            ;
            assert(ceil_to_step(end_frame + 3 * WINDOW_SIZE) == end_frame + 3 * WINDOW_SIZE);
        }
        self.extend_front(end_frame + 3 * WINDOW_SIZE, samples, spectra);
        proof {
            lemma_cover_after_front(
                was_complete,
                old_rbound,
                old_filled,
                self.filled_to(),
                end_frame as int,
                ch,
                samples@.len() as int,
            );
        }
        let back = if start_frame >= WINDOW_SIZE {
            start_frame - WINDOW_SIZE
        } else {
            0
        };
        proof {
            assert(back % 256 == 0);
            assert(floor_to_step(back as int) == back);
        }
        self.extend_back(back, samples, spectra);
        let lb = self.lbound;
        let held = self.fft_buf.len() / spectrum;
        let first = (start_frame - lb) / STEP_SIZE;
        let ghost buf = self.fft_buf@;
        proof {
            vstd::arithmetic::div_mod::lemma_fundamental_div_mod(start_frame - lb, 256);
            vstd::arithmetic::div_mod::lemma_fundamental_div_mod(end_frame - lb, 256);
            assert(start_frame == lb + first * STEP_SIZE);
            assert((end_frame - lb) / 256 == first + columns) by {
                vstd::arithmetic::div_mod::lemma_div_by_multiple(first + columns, 256);
            }
            assert(end_frame <= self.filled_to() <==> first + columns <= held);
        }
        if first > held || columns > held - first {
            return false;
        }
        proof {
            assert((first + columns) * spectrum <= buf.len()) by (nonlinear_arith)
                requires
                    first + columns <= held,
                    held == buf.len() / 2048,
                    spectrum == 2048,
                    first >= 0,
                    columns >= 0,
            ;
            assert((first + columns) * spectrum == first * spectrum + columns * spectrum) by (nonlinear_arith);
        }
        let buffered = self.fft_buf.len();
        let fft_start = first * spectrum;
        let mut i: usize = 0;
        while i < out.len()
            invariant
                out@.len() == columns * spectrum,
                fft_start + out@.len() <= buf.len(),
                buf.len() == buffered,
                self.fft_buf@ == buf,
                i <= out@.len(),
                forall|j: int| 0 <= j < i ==> #[trigger] out@[j] == buf[fft_start + j],
            decreases out@.len() - i,
        {
            out[i] = self.fft_buf[fft_start + i];
            i += 1;
        }
        proof {
            assert(out@ =~= buf.subrange(first * SPECTRUM_SIZE, (first + columns) * SPECTRUM_SIZE));
            lemma_columns_sub(*spectra, samples@, ch, lb as int, held as int, buf, first as int, columns as int);
        }
        let ghost before = *self;
        proof {
            let new_left = back - back % 256;
            if new_left > lb {
                assert(new_left - lb <= start_frame - lb);
                vstd::arithmetic::div_mod::lemma_div_is_ordered(new_left - lb, start_frame - lb, 256);
                assert(((new_left - lb) / 256) * spectrum <= first * spectrum) by (nonlinear_arith)
                    requires
                        (new_left - lb) / 256 <= first,
                        spectrum >= 0,
                ;
            }
        }
        self.drop_back(back);
        proof {
            lemma_drop_back_keeps_wf(before, *self, back as int, samples@, *spectra);
        }
        true
    }
}

} // verus!
