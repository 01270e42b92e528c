use wavz::parser::{
    read_header, try_from_mmap, Channels, MmapError, RiffWavePcm, WavError,
};

fn le32(x: u32) -> [u8; 4] {
    x.to_le_bytes()
}

/// A canonical 44-byte-header PCM file.
fn pcm_wav(channels: u16, rate: u32, samples: &[i16]) -> Vec<u8> {
    let data_len = (samples.len() * 2) as u32;
    let mut v = Vec::new();
    v.extend_from_slice(b"RIFF");
    v.extend_from_slice(&le32(36 + data_len));
    v.extend_from_slice(b"WAVE");
    v.extend_from_slice(b"fmt ");
    v.extend_from_slice(&le32(16));
    v.extend_from_slice(&1u16.to_le_bytes());
    v.extend_from_slice(&channels.to_le_bytes());
    v.extend_from_slice(&le32(rate));
    v.extend_from_slice(&le32(rate * 2 * channels as u32));
    v.extend_from_slice(&(2 * channels).to_le_bytes());
    v.extend_from_slice(&16u16.to_le_bytes());
    v.extend_from_slice(b"data");
    v.extend_from_slice(&le32(data_len));
    for s in samples {
        v.extend_from_slice(&s.to_le_bytes());
    }
    v
}

/// A file whose format chunk has the given size and body, then the data chunk.
fn wav_with_format(format_body: &[u8], data: &[i16]) -> Vec<u8> {
    let mut v = Vec::new();
    v.extend_from_slice(b"RIFF");
    v.extend_from_slice(&le32(0));
    v.extend_from_slice(b"WAVE");
    v.extend_from_slice(b"fmt ");
    v.extend_from_slice(&le32(format_body.len() as u32));
    v.extend_from_slice(format_body);
    v.extend_from_slice(b"data");
    v.extend_from_slice(&le32((data.len() * 2) as u32));
    for s in data {
        v.extend_from_slice(&s.to_le_bytes());
    }
    v
}

fn format16(code: u16, channels: u16, rate: u32) -> Vec<u8> {
    let mut f = Vec::new();
    f.extend_from_slice(&code.to_le_bytes());
    f.extend_from_slice(&channels.to_le_bytes());
    f.extend_from_slice(&le32(rate));
    f.extend_from_slice(&le32(rate * 2 * channels as u32));
    f.extend_from_slice(&(2 * channels).to_le_bytes());
    f.extend_from_slice(&16u16.to_le_bytes());
    f
}

const EXT_TAG: [u8; 14] = [
    0x00, 0x00, 0x00, 0x00, 0x10, 0x00, 0x80, 0x00, 0x00, 0xaa, 0x00, 0x38, 0x9b, 0x71,
];

fn format40(ext_size: u16, sub_format: u16, tag: [u8; 14]) -> Vec<u8> {
    let mut f = format16(0xfffe, 1, 8000);
    f.extend_from_slice(&ext_size.to_le_bytes());
    f.extend_from_slice(&16u16.to_le_bytes());
    f.extend_from_slice(&[0, 0, 0, 0]);
    f.extend_from_slice(&sub_format.to_le_bytes());
    f.extend_from_slice(&tag);
    f
}

fn parse(bytes: &[u8]) -> Result<RiffWavePcm, WavError> {
    RiffWavePcm::parse(bytes)
}

#[test]
fn ten_second_mono_file_lasts_ten_seconds() {
    let samples: Vec<i16> = (0..80_000).map(|i| ((i % 200) as i16 - 100) * 300).collect();
    let bytes = pcm_wav(1, 8000, &samples);
    let w = parse(&bytes).unwrap();
    assert_eq!(w.samples_per_second, 8000);
    assert_eq!(w.samples.len() / w.samples_per_second as usize, 10);
    assert_eq!(&*w.samples, &samples[..]);
}

#[test]
fn stereo_file_is_averaged_toward_zero() {
    let samples = [100i16, 201, -3, 0, -32768, -32768, 32767, 32767, 7, -8];
    let bytes = pcm_wav(2, 44100, &samples);
    let w = parse(&bytes).unwrap();
    assert_eq!(w.samples_per_second, 44100);
    assert_eq!(&*w.samples, &[150, -1, -32768, 32767, 0]);
}

#[test]
fn three_channel_blocks_are_averaged_and_partial_block_dropped() {
    let samples = [1i16, 2, 4, -10, -10, -11, 9];
    let bytes = pcm_wav(3, 1000, &samples);
    let w = parse(&bytes).unwrap();
    assert_eq!(w.samples_per_second, 1000);
    // 7/3 = 2.33 -> 2; -31/3 = -10.33 -> -10; the lone 9 is dropped
    assert_eq!(&*w.samples, &[2, -10]);
}

#[test]
fn format_chunk_of_18_bytes_is_read() {
    let mut f = format16(1, 1, 16000);
    f.extend_from_slice(&[0, 0]);
    let bytes = wav_with_format(&f, &[5, -5, 6]);
    let w = parse(&bytes).unwrap();
    assert_eq!(w.samples_per_second, 16000);
    assert_eq!(&*w.samples, &[5, -5, 6]);
}

#[test]
fn format_chunk_of_18_bytes_needs_zero_extension() {
    let mut f = format16(1, 1, 16000);
    f.extend_from_slice(&[1, 0]);
    let bytes = wav_with_format(&f, &[5]);
    assert_eq!(parse(&bytes).err(), Some(WavError::NonzeroExtension));
}

#[test]
fn format_chunk_of_40_bytes_is_read() {
    let bytes = wav_with_format(&format40(22, 1, EXT_TAG), &[1, 2, 3]);
    let w = parse(&bytes).unwrap();
    assert_eq!(w.samples_per_second, 8000);
    assert_eq!(&*w.samples, &[1, 2, 3]);
}

#[test]
fn format_chunk_of_40_bytes_errors() {
    assert_eq!(
        parse(&wav_with_format(&format40(21, 1, EXT_TAG), &[1])).err(),
        Some(WavError::BadExtensionSize)
    );
    assert_eq!(
        parse(&wav_with_format(&format40(22, 3, EXT_TAG), &[1])).err(),
        Some(WavError::NotPcm)
    );
    let mut bad_tag = EXT_TAG;
    bad_tag[13] = 0;
    assert_eq!(
        parse(&wav_with_format(&format40(22, 1, bad_tag), &[1])).err(),
        Some(WavError::BadExtensionTag)
    );
    let mut not_ext = format40(22, 1, EXT_TAG);
    not_ext[0] = 1;
    assert_eq!(
        parse(&wav_with_format(&not_ext, &[1])).err(),
        Some(WavError::NotExtensible)
    );
}

#[test]
fn bad_format_size_is_reported() {
    let mut f = format16(1, 1, 8000);
    f.extend_from_slice(&[0, 0, 0, 0]);
    let bytes = wav_with_format(&f, &[1]);
    assert_eq!(parse(&bytes).err(), Some(WavError::BadFormatSize(20)));
}

#[test]
fn tags_are_checked_in_order() {
    let good = pcm_wav(1, 8000, &[1, 2]);
    let mut b = good.clone();
    b[0] = b'X';
    assert_eq!(parse(&b).err(), Some(WavError::NotRiff));
    let mut b = good.clone();
    b[8] = b'X';
    assert_eq!(parse(&b).err(), Some(WavError::NotWave));
    let mut b = good.clone();
    b[12] = b'X';
    assert_eq!(parse(&b).err(), Some(WavError::NotFormat));
    let mut b = good.clone();
    b[20] = 3;
    assert_eq!(parse(&b).err(), Some(WavError::NotPcm));
}

#[test]
fn short_files_are_unexpected_eof() {
    let good = pcm_wav(1, 8000, &[1, 2, 3]);
    assert_eq!(parse(&good[..35]).err(), Some(WavError::UnexpectedEof));
    // no room for the data chunk header
    assert_eq!(parse(&good[..40]).err(), Some(WavError::UnexpectedEof));
    // samples cut short
    assert_eq!(parse(&good[..good.len() - 1]).err(), Some(WavError::UnexpectedEof));
    assert!(parse(&[]).is_err());
}

#[test]
fn chunks_before_data_are_skipped() {
    let mut bytes = Vec::new();
    bytes.extend_from_slice(b"RIFF");
    bytes.extend_from_slice(&le32(0));
    bytes.extend_from_slice(b"WAVE");
    bytes.extend_from_slice(b"fmt ");
    bytes.extend_from_slice(&le32(16));
    bytes.extend_from_slice(&format16(1, 1, 22050));
    bytes.extend_from_slice(b"LIST");
    bytes.extend_from_slice(&le32(6));
    bytes.extend_from_slice(b"abcdef");
    bytes.extend_from_slice(b"data");
    bytes.extend_from_slice(&le32(4));
    bytes.extend_from_slice(&300i16.to_le_bytes());
    bytes.extend_from_slice(&(-300i16).to_le_bytes());
    let w = parse(&bytes).unwrap();
    assert_eq!(w.samples_per_second, 22050);
    assert_eq!(&*w.samples, &[300, -300]);
    let h = read_header(&bytes).unwrap();
    assert_eq!(h.data_offset, 58);
    assert_eq!(h.data_bytes, 4);
    assert_eq!(h.num_channels, 1);
}

#[test]
fn chunk_size_past_the_end_is_unexpected_eof() {
    let mut bytes = pcm_wav(1, 8000, &[]);
    // turn the data chunk into an unknown chunk claiming a huge size
    bytes[36..40].copy_from_slice(b"junk");
    bytes[40..44].copy_from_slice(&le32(u32::MAX));
    assert_eq!(parse(&bytes).err(), Some(WavError::UnexpectedEof));
}

#[test]
fn header_reports_channels_rate_and_data() {
    let bytes = pcm_wav(2, 48000, &[1, 2, 3, 4]);
    let h = read_header(&bytes).unwrap();
    assert_eq!(h.num_channels, 2);
    assert_eq!(h.bytes_per_second, 48000 * 4);
    assert_eq!(h.data_offset, 44);
    assert_eq!(h.data_bytes, 8);
}

#[test]
fn mmap_reads_rate_and_channels() {
    let bytes = pcm_wav(2, 44100, &[10, 20, 30, 40]);
    let m = try_from_mmap(&bytes).unwrap();
    assert_eq!(m.samples_per_second, 44100);
    assert_eq!(m.channels, Channels::Two);
    assert_eq!(m.channels.count(), 2);
    // the samples are the `data` chunk's payload, channels interleaved
    assert_eq!(m.samples, vec![10, 20, 30, 40]);
}

#[test]
fn mmap_reads_data_payload_of_stereo_file() {
    let bytes = pcm_wav(2, 8000, &[32767, 32765, -2, -1]);
    assert_eq!(bytes.len(), 52);
    let m = wavz::parser::from_mmap(&bytes);
    assert_eq!(m.samples_per_second, 8000);
    assert!(matches!(m.channels, Channels::Two));
    assert_eq!(m.samples, vec![32767i16, 32765, -2, -1]);
}

#[test]
fn mmap_and_parse_agree() {
    let bytes = pcm_wav(2, 22050, &[100, 201, -7, -8, 5, 6]);
    let m = try_from_mmap(&bytes).unwrap();
    let p = RiffWavePcm::parse(&bytes).unwrap();
    assert_eq!(p.samples_per_second, m.samples_per_second);
    let c = m.channels.count() as usize;
    assert_eq!(p.samples.len(), m.samples.len() / c);
    for k in 0..p.samples.len() {
        let sum: i32 = m.samples[k * c..k * c + c].iter().map(|&x| x as i32).sum();
        assert_eq!(p.samples[k] as i32, sum / c as i32);
    }
}

#[test]
fn mmap_skips_chunks_before_data() {
    let mut v = pcm_wav(1, 8000, &[]);
    v.truncate(36);
    v.extend_from_slice(b"LIST");
    v.extend_from_slice(&le32(4));
    v.extend_from_slice(b"abcd");
    v.extend_from_slice(b"data");
    v.extend_from_slice(&le32(4));
    v.extend_from_slice(&7i16.to_le_bytes());
    v.extend_from_slice(&(-9i16).to_le_bytes());
    let m = try_from_mmap(&v).unwrap();
    assert_eq!(m.samples, vec![7, -9]);
}

#[test]
fn mmap_rejects_payload_past_the_end() {
    let mut b = pcm_wav(1, 8000, &[1, 2]);
    b[40..44].copy_from_slice(&le32(6));
    assert_eq!(try_from_mmap(&b).unwrap_err(), MmapError::Truncated);
}

#[test]
fn mmap_rejects_what_playback_cannot_use() {
    let good = pcm_wav(1, 8000, &[1, 2]);
    assert_eq!(try_from_mmap(&good[..6]).unwrap_err(), MmapError::Truncated);
    let mut b = good.clone();
    b[0] = 0;
    assert_eq!(try_from_mmap(&b).unwrap_err(), MmapError::NotRiff);
    let three = pcm_wav(3, 8000, &[1, 2, 3]);
    assert_eq!(try_from_mmap(&three).unwrap_err(), MmapError::UnsupportedChannels(3));
    let mut odd = good.clone();
    odd[40..44].copy_from_slice(&le32(3));
    assert_eq!(try_from_mmap(&odd).unwrap_err(), MmapError::OddDataSize);
    let mut size = good.clone();
    size[16..20].copy_from_slice(&le32(17));
    assert_eq!(try_from_mmap(&size).unwrap_err(), MmapError::BadFormatSize(17));
    let mut pcm = good.clone();
    pcm[20] = 2;
    assert_eq!(try_from_mmap(&pcm).unwrap_err(), MmapError::NotPcm);
}

#[test]
fn from_mmap_matches_try_from_mmap() {
    let bytes = pcm_wav(1, 8000, &[1, 2, 3, 4, 5]);
    let m = wavz::parser::from_mmap(&bytes);
    assert_eq!(m.samples_per_second, 8000);
    assert_eq!(m.channels, Channels::One);
    assert_eq!(m.samples.len(), 5);
}
