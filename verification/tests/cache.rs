use wavz::fft::{SPECTRUM_SIZE, STEP_SIZE, WINDOW_SIZE};
use wavz::parser::Channels;
use wavz::realtime::FftMaker;

/// One column per step of frames in the samples given, each column filled with the first
/// sample of its window; a stand-in for the spectra.
fn columns(raw: &[i16]) -> Vec<i16> {
    let mut v = Vec::new();
    if raw.len() < WINDOW_SIZE {
        return v;
    }
    let n = (raw.len() - WINDOW_SIZE) / STEP_SIZE;
    for i in 0..n {
        for _ in 0..SPECTRUM_SIZE {
            v.push(raw[i * STEP_SIZE]);
        }
    }
    v
}

fn song(frames: usize) -> Vec<i16> {
    (0..frames).map(|i| (i / STEP_SIZE) as i16).collect()
}

#[test]
fn front_extension_appends_columns_and_moves_right_bound() {
    let samples = song(40 * STEP_SIZE + WINDOW_SIZE);
    let mut m = FftMaker::<i16>::new(Channels::One);
    m.extend_front(3 * STEP_SIZE - 5, &samples, &columns);
    assert_eq!(m.rbound, 3 * STEP_SIZE);
    assert_eq!(m.lbound, 0);
    assert_eq!(m.fft_buf.len(), 3 * SPECTRUM_SIZE);
    // already covered: nothing changes
    m.extend_front(2 * STEP_SIZE, &samples, &columns);
    assert_eq!(m.fft_buf.len(), 3 * SPECTRUM_SIZE);
    m.extend_front(5 * STEP_SIZE, &samples, &columns);
    assert_eq!(m.rbound, 5 * STEP_SIZE);
    assert_eq!(m.fft_buf.len(), 5 * SPECTRUM_SIZE);
    assert_eq!(m.fft_buf[4 * SPECTRUM_SIZE], 4);
}

#[test]
fn drop_then_extend_back_restores_columns() {
    let samples = song(40 * STEP_SIZE + WINDOW_SIZE);
    let mut m = FftMaker::<i16>::new(Channels::One);
    m.extend_front(8 * STEP_SIZE, &samples, &columns);
    m.drop_back(3 * STEP_SIZE + 7);
    assert_eq!(m.lbound, 3 * STEP_SIZE);
    assert_eq!(m.fft_buf.len(), 5 * SPECTRUM_SIZE);
    assert_eq!(m.fft_buf[0], 3);
    m.extend_back(STEP_SIZE, &samples, &columns);
    assert_eq!(m.lbound, STEP_SIZE);
    assert_eq!(m.fft_buf[0], 1);
    assert_eq!(m.fft_buf[2 * SPECTRUM_SIZE], 3);
}

#[test]
fn yield_copies_the_columns_of_the_view() {
    let samples = song(200 * STEP_SIZE + 4 * WINDOW_SIZE);
    let mut m = FftMaker::<i16>::new(Channels::One);
    let mut out = vec![0i16; 3 * SPECTRUM_SIZE];
    assert!(m.yield_columns(100 * STEP_SIZE + 3, &mut out, &samples, &columns));
    assert_eq!(out[0], 100);
    assert_eq!(out[SPECTRUM_SIZE], 101);
    assert_eq!(out[2 * SPECTRUM_SIZE], 102);
    // columns more than a window before the view are dropped
    assert_eq!(m.lbound, 100 * STEP_SIZE - WINDOW_SIZE);
}

#[test]
fn yield_reports_missing_columns_at_the_end() {
    let samples = song(10 * STEP_SIZE + WINDOW_SIZE);
    let mut m = FftMaker::<i16>::new(Channels::One);
    let mut out = vec![7i16; 4 * SPECTRUM_SIZE];
    assert!(!m.yield_columns(8 * STEP_SIZE, &mut out, &samples, &columns));
    assert!(out.iter().all(|&v| v == 7));
}

#[test]
fn front_extension_past_the_end_moves_the_bound_with_fewer_columns() {
    // 12 steps of frames past the first window: the song holds 12 columns
    let samples = song(12 * STEP_SIZE + WINDOW_SIZE + 17);
    let mut m = FftMaker::<i16>::new(Channels::One);
    m.extend_front(40 * STEP_SIZE, &samples, &columns);
    // the right bound moves to the frame asked for; the columns stop where the song does
    assert_eq!(m.rbound, 40 * STEP_SIZE);
    assert_eq!(m.fft_buf.len(), 12 * SPECTRUM_SIZE);
    assert_eq!(m.fft_buf[11 * SPECTRUM_SIZE], 11);
    // past the samples: nothing changes
    m.extend_front(50 * STEP_SIZE, &samples, &columns);
    assert_eq!(m.rbound, 40 * STEP_SIZE);
    assert_eq!(m.fft_buf.len(), 12 * SPECTRUM_SIZE);
    // a view within the columns held is still served
    let mut out = vec![0i16; 2 * SPECTRUM_SIZE];
    assert!(m.yield_columns(9 * STEP_SIZE, &mut out, &samples, &columns));
    assert_eq!(out[0], 9);
    assert_eq!(out[SPECTRUM_SIZE], 10);
    // one past them is not
    let mut out = vec![5i16; 4 * SPECTRUM_SIZE];
    assert!(!m.yield_columns(9 * STEP_SIZE, &mut out, &samples, &columns));
    assert!(out.iter().all(|&v| v == 5));
}

#[test]
fn yield_gives_what_direct_spectra_give() {
    let samples: Vec<i16> = (0..(60 * STEP_SIZE + 4 * WINDOW_SIZE) * 2)
        .map(|i| ((i * 7919) % 30011) as i16)
        .collect();
    let stereo = |raw: &[i16]| -> Vec<i16> {
        let mono: Vec<i16> = raw.chunks_exact(2).map(|x| x[0]).collect();
        columns(&mono)
    };
    let mut m = FftMaker::<i16>::new(Channels::Two);
    let mut out = vec![0i16; 5 * SPECTRUM_SIZE];
    let sf = 20 * STEP_SIZE;
    assert!(m.yield_columns(sf + 100, &mut out, &samples, &stereo));
    let direct = stereo(&samples[sf * 2..(sf + 5 * STEP_SIZE + WINDOW_SIZE) * 2]);
    assert_eq!(out, direct);
    // a second, overlapping view comes from the cache and still matches
    let mut out2 = vec![0i16; 5 * SPECTRUM_SIZE];
    assert!(m.yield_columns(sf + 2 * STEP_SIZE, &mut out2, &samples, &stereo));
    let direct2 = stereo(&samples[(sf + 2 * STEP_SIZE) * 2..(sf + 7 * STEP_SIZE + WINDOW_SIZE) * 2]);
    assert_eq!(out2, direct2);
}
