use wavz::mic::{scroll_in_column, SlidingWindows};
use wavz::precomp_vis::{draw_image, draw_view};
use wavz::realtime::{ceil_step, floor_step, frame_bounds, zoom, Action, AudioCursor, SongTime};
use wavz::rgba::Rgba;

#[test]
fn steps_round_to_multiples_of_256() {
    assert_eq!(floor_step(0), 0);
    assert_eq!(floor_step(255), 0);
    assert_eq!(floor_step(256), 256);
    assert_eq!(floor_step(1000), 768);
    assert_eq!(ceil_step(0), 0);
    assert_eq!(ceil_step(1), 256);
    assert_eq!(ceil_step(256), 256);
    assert_eq!(ceil_step(1000), 1024);
}

const SEC: u128 = 1_000_000_000;

#[test]
fn song_clock_plays_pauses_and_skips() {
    let mut s = SongTime::new(10 * SEC);
    assert_eq!(s.dur(5 * SEC), 0);
    s.handle(Action::PlayPause, 1 * SEC);
    assert_eq!(s.dur(3 * SEC), 2 * SEC);
    s.handle(Action::PlayPause, 4 * SEC);
    assert_eq!(s.started_playing, None);
    assert_eq!(s.dur(100 * SEC), 3 * SEC);
    s.handle(Action::Advance, 100 * SEC);
    assert_eq!(s.dur(200 * SEC), 3 * SEC + SEC / 2);
    s.handle(Action::Rewind, 200 * SEC);
    s.handle(Action::Rewind, 200 * SEC);
    assert_eq!(s.dur(200 * SEC), 2 * SEC + SEC / 2);
}

#[test]
fn song_clock_rewind_while_playing_restarts_from_now() {
    let mut s = SongTime::new(10 * SEC);
    s.handle(Action::PlayPause, 0);
    s.handle(Action::Rewind, SEC / 4);
    assert_eq!(s.start_timestamp, 0);
    assert_eq!(s.started_playing, Some(SEC / 4));
    assert_eq!(s.dur(SEC), 3 * SEC / 4);
}

#[test]
fn song_clock_stops_at_the_end() {
    let mut s = SongTime::new(2 * SEC);
    s.handle(Action::PlayPause, 0);
    s.check_end(SEC);
    assert!(s.started_playing.is_some());
    s.check_end(3 * SEC);
    assert_eq!(s.started_playing, None);
    assert_eq!(s.dur(50 * SEC), 2 * SEC);
    let mut t = SongTime::new(SEC);
    t.handle(Action::Advance, 0);
    t.handle(Action::Advance, 0);
    assert_eq!(t.dur(0), SEC);
}

#[test]
fn play_pause_twice_keeps_position() {
    let mut s = SongTime::new(100 * SEC);
    s.handle(Action::PlayPause, 2 * SEC);
    let before = s.dur(9 * SEC);
    s.handle(Action::PlayPause, 5 * SEC);
    s.handle(Action::PlayPause, 5 * SEC);
    assert_eq!(s.dur(9 * SEC), before);
}

#[test]
fn audio_cursor_streams_then_pauses_at_end() {
    let samples: Vec<i16> = (1..=10).collect();
    let mut c = AudioCursor::new();
    let mut buf = [7i16; 4];
    c.fill(&samples, &mut buf);
    assert_eq!(buf, [0; 4]);
    c.handle(Action::PlayPause, 1, 8);
    c.fill(&samples, &mut buf);
    assert_eq!(buf, [1, 2, 3, 4]);
    c.fill(&samples, &mut buf);
    assert_eq!(buf, [5, 6, 7, 8]);
    c.fill(&samples, &mut buf);
    assert_eq!(buf, [9, 10, 0, 0]);
    assert!(c.paused);
    assert_eq!(c.player_head, 10);
}

#[test]
fn audio_cursor_skips_by_half_a_second() {
    let mut c = AudioCursor::new();
    c.handle(Action::Advance, 2, 1000);
    assert_eq!(c.player_head, 1000);
    c.handle(Action::Rewind, 2, 1000);
    assert_eq!(c.player_head, 0);
    c.handle(Action::Rewind, 2, 1000);
    assert_eq!(c.player_head, 0);
    c.handle(Action::PlayPause, 2, 1000);
    c.handle(Action::PlayPause, 2, 1000);
    assert!(c.paused);
}

#[test]
fn frame_bounds_center_and_clamp() {
    // view of 10 columns around frame 10_000 of a long song
    let (l, r, bar) = frame_bounds(10_000, 1_000_000, 10);
    assert_eq!(l, 10_000 - 5 * 256);
    assert_eq!(r, l + 10 * 256);
    assert_eq!(bar, 5);
    // near the start the view starts at 0
    let (l, _, bar) = frame_bounds(300, 1_000_000, 10);
    assert_eq!(l, 0);
    assert_eq!(bar, 1);
    // near the end the view is pushed back
    let (l, r, bar) = frame_bounds(9_000, 10_000, 10);
    assert_eq!(r, 10_000 - 4096);
    assert_eq!(l, r - 2560);
    assert_eq!(bar, (9_000 - l) / 256);
}

#[test]
fn windows_are_consecutive_over_pushed_pieces() {
    let mut w = SlidingWindows::<u32>::new(4, 2);
    w.push(&[0, 1, 2]);
    assert_eq!(w.next_window(), None);
    w.push(&[3, 4, 5, 6]);
    assert_eq!(w.next_window(), Some(vec![0, 1, 2, 3]));
    assert_eq!(w.next_window(), Some(vec![2, 3, 4, 5]));
    assert_eq!(w.next_window(), None);
    w.compact_past(3);
    w.compact_past(1);
    w.push(&[7, 8]);
    assert_eq!(w.next_window(), Some(vec![4, 5, 6, 7]));
    w.compact_for_display();
    assert_eq!(w.next_window(), None);
    w.push(&[9]);
    // a window is cut only when more than a window's worth follows its start
    assert_eq!(w.next_window(), None);
    w.push(&[10]);
    assert_eq!(w.next_window(), Some(vec![6, 7, 8, 9]));
}

#[test]
fn scrolling_shifts_rows_left_and_appends_column() {
    // 2 rows of 3 pixels, each pixel's bytes equal to its index * 4 + channel
    let mut frame: Vec<u8> = (0..24).collect();
    let column = [Rgba { r: 100, g: 101, b: 102, a: 103 }, Rgba { r: 200, g: 201, b: 202, a: 203 }];
    scroll_in_column(&mut frame, 3, 2, &column);
    assert_eq!(
        frame,
        vec![4, 5, 6, 7, 8, 9, 10, 11, 100, 101, 102, 103, 16, 17, 18, 19, 20, 21, 22, 23, 200, 201, 202, 203]
    );
}

#[test]
fn view_copies_a_window_of_each_row() {
    // image 4 pixels wide, 2 rows; show 2 columns from column 1
    let img: Vec<Rgba> = (0..8u8).map(|i| Rgba { r: i, g: i, b: i, a: 255 }).collect();
    let mut frame = vec![0u8; 16];
    draw_view(&img, 4, 1, 2, 2, &mut frame);
    assert_eq!(
        frame,
        vec![1, 1, 1, 255, 2, 2, 2, 255, 5, 5, 5, 255, 6, 6, 6, 255]
    );
    let mut whole = vec![0u8; 32];
    draw_image(&img, &mut whole);
    assert_eq!(&whole[28..32], &[7, 7, 7, 255]);
    assert_eq!(&whole[0..4], &[0, 0, 0, 255]);
}

#[test]
fn skip_past_end_plays_silence_and_pauses() {
    let samples: Vec<i16> = (1..=10).collect();
    let mut c = AudioCursor::new();
    c.handle(Action::PlayPause, 2, 8);
    c.player_head = 8;
    c.handle(Action::Advance, 2, 8);
    assert_eq!(c.player_head, 16);
    let mut data = [7i16; 4];
    c.fill(&samples, &mut data);
    assert_eq!(data, [0, 0, 0, 0]);
    assert!(c.paused);
    assert_eq!(c.player_head, 10);
    // resuming at the end emits silence again and pauses
    c.handle(Action::PlayPause, 2, 8);
    let mut data = [5i16; 3];
    c.fill(&samples, &mut data);
    assert_eq!(data, [0, 0, 0]);
    assert!(c.paused);
}

#[test]
fn zoom_steps_the_pixel_scale_and_stops_at_one() {
    assert_eq!(zoom(3, true, false), 4);
    assert_eq!(zoom(3, false, true), 2);
    assert_eq!(zoom(1, false, true), 1);
    assert_eq!(zoom(3, true, true), 3);
    assert_eq!(zoom(3, false, false), 3);
}
