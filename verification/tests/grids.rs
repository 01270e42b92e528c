use wavz::fft::{bit_reverse_permute, BoxSlice2D, MutSlice2D, Slice2D, SPECTRUM_SIZE, STEP_SIZE, WINDOW_SIZE};
use wavz::graphics::{draw_vbar, render_spectrum, spectrogram, spectrogram_into};
use wavz::rgba::Rgba;

#[test]
fn window_constants() {
    assert_eq!(WINDOW_SIZE, 4096);
    assert_eq!(SPECTRUM_SIZE, WINDOW_SIZE / 2);
    assert_eq!(STEP_SIZE, 256);
}

#[test]
fn new_grid_is_default_filled() {
    let g = BoxSlice2D::<Rgba>::new(3, 2);
    assert_eq!(g.width, 3);
    assert_eq!(g.data.len(), 6);
    assert!(g.data.iter().all(|&p| p == Rgba::black()));
    let z = BoxSlice2D::<u32>::new(4, 0);
    assert_eq!(z.data.len(), 0);
}

#[test]
fn rows_are_width_long_slices() {
    let mut g = BoxSlice2D::<u32>::new(3, 3);
    for (i, c) in g.data.iter_mut().enumerate() {
        *c = i as u32;
    }
    assert_eq!(g.row(1), &[3, 4, 5]);
    g.row_mut(2).copy_from_slice(&[70, 80, 90]);
    assert_eq!(&*g.data, &[0, 1, 2, 3, 4, 5, 70, 80, 90]);
    let v = g.unbox();
    assert_eq!(v.width, 3);
    assert_eq!(v.row(0), &[0, 1, 2]);
    let mut m = g.unbox_mut();
    assert_eq!(m.row(2), &[70, 80, 90]);
    m.row_mut(0)[1] = 11;
    assert_eq!(g.data[1], 11);
}

#[test]
fn slice_views_share_rows() {
    let data = [1u8, 2, 3, 4];
    let s = Slice2D { data: &data, width: 2 };
    assert_eq!(s.row(1), &[3, 4]);
    let mut buf = [0u8; 6];
    let mut m = MutSlice2D { data: &mut buf, width: 3 };
    m.row_mut(1).copy_from_slice(&[7, 8, 9]);
    assert_eq!(buf, [0, 0, 0, 7, 8, 9]);
}

#[test]
fn vbar_paints_one_column_white() {
    let mut img = vec![Rgba::black(); 12];
    draw_vbar(2, MutSlice2D { data: &mut img, width: 4 });
    for (k, p) in img.iter().enumerate() {
        if k % 4 == 2 {
            assert_eq!(*p, Rgba::white());
        } else {
            assert_eq!(*p, Rgba::black());
        }
    }
}

#[test]
fn spectrogram_is_transposed_and_flipped_into_view() {
    // two spectra of SPECTRUM_SIZE bins; bin b of spectrum s holds s * 10000 + b
    let spectra: Vec<u32> = (0..2 * SPECTRUM_SIZE)
        .map(|k| (k / SPECTRUM_SIZE) as u32 * 10000 + (k % SPECTRUM_SIZE) as u32)
        .collect();
    // an image 2 wide and 3 tall shows the last 3 bins
    let mut out = vec![0u32; 6];
    spectrogram_into(
        Slice2D { data: &spectra, width: SPECTRUM_SIZE },
        |v: u32| v + 1,
        MutSlice2D { data: &mut out, width: 2 },
    );
    let hidden = (SPECTRUM_SIZE - 3) as u32;
    assert_eq!(
        out,
        vec![
            hidden + 1,
            10000 + hidden + 1,
            hidden + 2,
            10000 + hidden + 2,
            hidden + 3,
            10000 + hidden + 3
        ]
    );
}

#[test]
fn spectrogram_allocates_one_column_per_spectrum() {
    let spectra: Vec<u8> = (0..3 * SPECTRUM_SIZE).map(|k| (k % 7) as u8).collect();
    let img = spectrogram(Slice2D { data: &spectra, width: SPECTRUM_SIZE }, |v: u8| v as u16 * 2);
    assert_eq!(img.width, 3);
    assert_eq!(img.data.len(), 3 * SPECTRUM_SIZE);
    // row 0 shows bin 0 of each spectrum
    assert_eq!(img.data[0], 0);
    assert_eq!(img.data[1], ((SPECTRUM_SIZE % 7) as u16) * 2);
    assert_eq!(img.data[2], (((2 * SPECTRUM_SIZE) % 7) as u16) * 2);
    // row 5, column 1 shows bin 5 of spectrum 1
    assert_eq!(img.data[5 * 3 + 1], (((SPECTRUM_SIZE + 5) % 7) as u16) * 2);
}

#[test]
fn render_spectrum_maps_every_bin() {
    let px = render_spectrum(&[1u8, 2, 3], |v: u8| Rgba::rgb(v, v, v));
    assert_eq!(px, vec![Rgba::rgb(1, 1, 1), Rgba::rgb(2, 2, 2), Rgba::rgb(3, 3, 3)]);
}

#[test]
fn bit_reversal_moves_each_index_to_its_mirror() {
    let mut fr: Vec<u32> = (0..WINDOW_SIZE as u32).collect();
    let mut fi: Vec<u32> = (0..WINDOW_SIZE as u32).map(|x| x + 100_000).collect();
    bit_reverse_permute(&mut fr, &mut fi);
    assert_eq!(fr[1], 2048);
    assert_eq!(fr[2048], 1);
    assert_eq!(fr[3], 3072);
    assert_eq!(fr[0], 0);
    assert_eq!(fr[4095], 4095);
    assert_eq!(fi[1], 102048);
    for k in 0..WINDOW_SIZE {
        let r = (k as u32).reverse_bits() >> 20;
        assert_eq!(fr[k], r);
    }
    // applying it twice gives the window back
    bit_reverse_permute(&mut fr, &mut fi);
    assert!(fr.iter().enumerate().all(|(k, &v)| v == k as u32));
    assert!(fi.iter().enumerate().all(|(k, &v)| v == k as u32 + 100_000));
}

#[test]
fn rgba_colors_and_bytes() {
    assert_eq!(Rgba::rgb(1, 2, 3), Rgba { r: 1, g: 2, b: 3, a: 255 });
    assert_eq!(Rgba::default(), Rgba::black());
    assert_eq!(Rgba::black().to_bytes(), [0, 0, 0, 255]);
    assert_eq!(Rgba::white().to_bytes(), [255, 255, 255, 255]);
    assert_eq!(Rgba { r: 9, g: 8, b: 7, a: 6 }.to_bytes(), [9, 8, 7, 6]);
}

#[test]
fn spectrogram_rows_run_on_when_spectra_outnumber_columns() {
    // three spectra into an image 2 wide: row y of spectrum x lands at y * 2 + x
    let spectra: Vec<u32> = (0..3 * SPECTRUM_SIZE)
        .map(|k| (k / SPECTRUM_SIZE) as u32 * 10000 + (k % SPECTRUM_SIZE) as u32)
        .collect();
    let mut out = vec![7u32; 8];
    spectrogram_into(
        Slice2D { data: &spectra, width: SPECTRUM_SIZE },
        |v: u32| v,
        MutSlice2D { data: &mut out, width: 2 },
    );
    // 8 cells / 3 spectra: 2 visible rows, the last 2 bins
    let hidden = (SPECTRUM_SIZE - 2) as u32;
    assert_eq!(
        out,
        vec![
            hidden,                 // (0, 0)
            10000 + hidden,         // (1, 0)
            hidden + 1,             // (0, 1) overwrites (2, 0)
            10000 + hidden + 1,     // (1, 1)
            20000 + hidden + 1,     // (2, 1)
            7,
            7,
            7
        ]
    );
}
