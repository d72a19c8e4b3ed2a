use bitperfect::convert::{append_bytes, OutFrames, Packer};
use bitperfect::dop::{dop_silence, DopPacker, DOP_MARKER_A, DOP_MARKER_B, DSD_SILENCE};
use bitperfect::dsd::{
    dop_frames_per_sector, is_dsd_path, open_dsd, pick_area, sacd_landed, sacd_target, Area,
    DsdOpen, DsdSpec, DsfDffSource,
};
use bitperfect::error::Error;
use bitperfect::format::{AlsaFmt, DeviceFormats, PcmFormat, StreamSpec};
use bitperfect::sink::{configure_hw, silence_for, AlsaSink, Transfer, EPIPE, ESTRPIPE};

#[test]
fn s16_downshift_recovers_native() {
    let full = [(0x1234i32) << 16, (-1i32) << 16];
    let mut p = Packer::new(AlsaFmt::S16);
    match p.pack(&full) {
        OutFrames::S16(s) => assert_eq!(s, &[0x1234i16, -1i16]),
        _ => panic!("wrong variant"),
    }
}

#[test]
fn s24_packs_low_three_bytes_le() {
    let full = [(0x7FABCDi32) << 8, (-1i32) << 8];
    let mut p = Packer::new(AlsaFmt::S24_3);
    match p.pack(&full) {
        OutFrames::S24(b) => {
            assert_eq!(b, &[0xCD, 0xAB, 0x7F, 0xFF, 0xFF, 0xFF]);
        }
        _ => panic!("wrong variant"),
    }
}

#[test]
fn s32_is_passthrough() {
    let full = [0x0BAD_F00Du32 as i32, -42];
    let mut p = Packer::new(AlsaFmt::S32);
    match p.pack(&full) {
        OutFrames::S32(s) => assert_eq!(s, &full),
        _ => panic!("wrong variant"),
    }
}

#[test]
fn append_bytes_s32_is_little_endian() {
    let full = [1i32, -1];
    let mut p = Packer::new(AlsaFmt::S32);
    let out = p.pack(&full);
    let mut bytes = Vec::new();
    append_bytes(&mut bytes, &out);
    assert_eq!(bytes, &[1, 0, 0, 0, 0xFF, 0xFF, 0xFF, 0xFF]);
}

#[test]
fn append_bytes_s16_keeps_what_is_there() {
    let full = [(0x0102i32) << 16, (-2i32) << 16];
    let mut p = Packer::new(AlsaFmt::S16);
    let out = p.pack(&full);
    let mut bytes = vec![9u8];
    append_bytes(&mut bytes, &out);
    assert_eq!(bytes, vec![9, 0x02, 0x01, 0xFE, 0xFF]);
}

#[test]
fn parts_pack_as_the_whole() {
    let whole: Vec<i32> = (0..40i32).map(|i| i.wrapping_mul(0x1357_9bdf)).collect();
    for fmt in [AlsaFmt::S16, AlsaFmt::S24_3, AlsaFmt::S32] {
        let mut at_once = Vec::new();
        append_bytes(&mut at_once, &Packer::new(fmt).pack(&whole));
        let mut in_parts = Vec::new();
        for part in [&whole[..13], &whole[13..14], &whole[14..]] {
            append_bytes(&mut in_parts, &Packer::new(fmt).pack(part));
        }
        assert_eq!(in_parts, at_once);
    }
}

#[test]
fn a_packer_reuses_its_buffer() {
    let mut p = Packer::new(AlsaFmt::S24_3);
    let _ = p.pack(&[1 << 8, 2 << 8]);
    match p.pack(&[3 << 8]) {
        OutFrames::S24(b) => assert_eq!(b, &[3, 0, 0]),
        _ => panic!("wrong variant"),
    }
}

fn unpack(fmt: AlsaFmt, channels: usize, dop: &[u8]) -> (Vec<u8>, Vec<u8>) {
    let bps = match fmt {
        AlsaFmt::S24_3 => 3,
        AlsaFmt::S32 => 4,
        AlsaFmt::S16 => unreachable!(),
    };
    let frame_bytes = bps * channels;
    let mut dsd = Vec::new();
    let mut markers = Vec::new();
    for frame in dop.chunks_exact(frame_bytes) {
        let mut olds = Vec::new();
        let mut news = Vec::new();
        for (c, samp) in frame.chunks_exact(bps).enumerate() {
            let (marker, old, new) = match fmt {
                AlsaFmt::S24_3 => (samp[2], samp[1], samp[0]),
                AlsaFmt::S32 => (samp[3], samp[2], samp[1]),
                AlsaFmt::S16 => unreachable!(),
            };
            if c == 0 {
                markers.push(marker);
            }
            olds.push(old);
            news.push(new);
        }
        dsd.extend_from_slice(&olds);
        dsd.extend_from_slice(&news);
    }
    (dsd, markers)
}

#[test]
fn stereo_s32_layout_and_markers() {
    let dsd = [0x12, 0x34, 0x56, 0x78, 0x9A, 0xBC, 0xDE, 0xF0];
    let mut p = DopPacker::new(AlsaFmt::S32, 2);
    let out = p.pack(&dsd).to_vec();
    assert_eq!(
        out,
        vec![
            0x00, 0x56, 0x12, 0x05, 0x00, 0x78, 0x34, 0x05, // frame 0
            0x00, 0xDE, 0x9A, 0xFA, 0x00, 0xF0, 0xBC, 0xFA, // frame 1
        ]
    );
}

#[test]
fn s24_layout() {
    let dsd = [0xAA, 0xBB, 0xCC, 0xDD];
    let mut p = DopPacker::new(AlsaFmt::S24_3, 2);
    let out = p.pack(&dsd).to_vec();
    assert_eq!(out, vec![0xCC, 0xAA, 0x05, 0xDD, 0xBB, 0x05]);
}

#[test]
fn roundtrip_is_lossless_and_markers_alternate() {
    let mut dsd = Vec::new();
    let mut x = 0x1234_5678u32;
    for _ in 0..(4 * 50) {
        x = x.wrapping_mul(1_103_515_245).wrapping_add(12_345);
        dsd.push((x >> 16) as u8);
    }
    for &fmt in &[AlsaFmt::S24_3, AlsaFmt::S32] {
        let mut p = DopPacker::new(fmt, 2);
        let out = p.pack(&dsd).to_vec();
        let (back, markers) = unpack(fmt, 2, &out);
        assert_eq!(back, dsd, "DoP must reconstruct DSD exactly ({fmt:?})");
        assert_eq!(markers.len(), 50);
        for (i, &m) in markers.iter().enumerate() {
            let want = if i % 2 == 0 { DOP_MARKER_A } else { DOP_MARKER_B };
            assert_eq!(m, want, "marker phase at frame {i}");
        }
    }
}

#[test]
fn carry_across_calls_matches_one_shot() {
    let dsd: Vec<u8> = (0..=199u32).map(|v| (v * 7) as u8).collect();
    let mut one = DopPacker::new(AlsaFmt::S32, 2);
    let whole = one.pack(&dsd).to_vec();

    let mut split = DopPacker::new(AlsaFmt::S32, 2);
    let mut acc = Vec::new();
    for chunk in dsd.chunks(3) {
        acc.extend_from_slice(split.pack(chunk));
    }
    assert_eq!(acc, whole);
}

#[test]
fn reset_goes_back_to_the_first_marker() {
    let mut p = DopPacker::new(AlsaFmt::S24_3, 1);
    assert_eq!(p.pack(&[1, 2, 3]), &[2, 1, DOP_MARKER_A]);
    p.reset();
    assert_eq!(p.pack(&[4, 5]), &[5, 4, DOP_MARKER_A]);
}

#[test]
fn silence_is_idle_dsd_under_alternating_markers() {
    let v = dop_silence(AlsaFmt::S24_3, 1, 3);
    assert_eq!(
        v,
        vec![
            DSD_SILENCE, DSD_SILENCE, DOP_MARKER_A, DSD_SILENCE, DSD_SILENCE, DOP_MARKER_B,
            DSD_SILENCE, DSD_SILENCE, DOP_MARKER_A,
        ]
    );
    assert!(dop_silence(AlsaFmt::S32, 2, 0).is_empty());
}

#[test]
fn silence_for_a_stream_is_zeros_or_an_even_run() {
    let pcm = StreamSpec::new(44_100, 2, 16);
    assert_eq!(silence_for(pcm, 3), vec![0u8; 12]);
    let dop = StreamSpec::dop(176_400, 2, AlsaFmt::S32);
    assert_eq!(silence_for(dop, 5), dop_silence(AlsaFmt::S32, 2, 4));
}

#[test]
fn dop_spec_maps_dsd64_to_176k4() {
    let s = DsdSpec { dsd_rate: 2_822_400, channels: 2, n_frames: None };
    let dop = s.dop_spec(AlsaFmt::S32);
    assert_eq!(dop.rate, 176_400);
    assert_eq!(dop.channels, 2);
    assert!(dop.is_dop);
    assert_eq!(dop.fmt, AlsaFmt::S32);
    assert_eq!(s.label(), "DSD64");
}

#[test]
fn dsd128_maps_to_352k8() {
    let s = DsdSpec { dsd_rate: 5_644_800, channels: 2, n_frames: None };
    assert_eq!(s.dop_spec(AlsaFmt::S24_3).rate, 352_800);
    assert_eq!(s.label(), "DSD128");
}

#[test]
fn dsd_rates_off_the_grid_have_no_multiple() {
    let at = |dsd_rate: u32| DsdSpec { dsd_rate, channels: 2, n_frames: None };
    assert_eq!(at(2_822_400).dsd_multiple(), 64);
    assert_eq!(at(11_289_600).dsd_multiple(), 256);
    assert_eq!(at(3_072_000).dsd_multiple(), 0);
    assert_eq!(at(3_072_000).label(), "DSD0");
    assert_eq!(at(2_822_401).dsd_multiple(), 0);
    assert_eq!(at(0).dsd_multiple(), 0);
}

#[test]
fn formats_follow_the_source() {
    assert_eq!(AlsaFmt::from_source_bits(16), AlsaFmt::S16);
    assert_eq!(AlsaFmt::from_source_bits(20), AlsaFmt::S24_3);
    assert_eq!(AlsaFmt::from_source_bits(24), AlsaFmt::S24_3);
    assert_eq!(AlsaFmt::from_source_bits(32), AlsaFmt::S32);
    assert_eq!(AlsaFmt::S24_3.bytes_per_sample(), 3);
    assert_eq!(AlsaFmt::S24_3.output_bits(), 24);
    assert_eq!(AlsaFmt::S24_3.to_alsa(), PcmFormat::S243LE);
    assert_eq!(AlsaFmt::S16.label(), "S16_LE");
    assert_eq!(AlsaFmt::S24_3.label(), "S24_3LE");
    assert_eq!(AlsaFmt::S32.label(), "S32_LE");
    let s = StreamSpec::new(96_000, 2, 24);
    assert_eq!(s.bytes_per_frame(), 6);
    assert!(s.same_wire(&StreamSpec { source_bits: 20, ..s }));
    assert!(!s.same_wire(&StreamSpec { rate: 48_000, ..s }));
}

#[test]
fn a_device_is_widened_never_narrowed() {
    let only32 = DeviceFormats { s16: false, s24_3: false, s32: true };
    assert_eq!(only32.choose_format(16), Some(AlsaFmt::S32));
    let no24 = DeviceFormats { s16: true, s24_3: false, s32: true };
    assert_eq!(no24.choose_format(24), Some(AlsaFmt::S32));
    let only16 = DeviceFormats { s16: true, s24_3: false, s32: false };
    assert_eq!(only16.choose_format(24), None);
    assert_eq!(DeviceFormats::all().choose_format(20), Some(AlsaFmt::S24_3));
    assert!(no24.supports(AlsaFmt::S16) && !no24.supports(AlsaFmt::S24_3));
}

#[test]
fn dsd_paths_are_told_by_extension() {
    assert!(is_dsd_path("/m/a.DSF"));
    assert!(is_dsd_path("b.dff"));
    assert!(is_dsd_path("c.Iso"));
    assert!(!is_dsd_path("d.flac"));
    assert!(!is_dsd_path("dsf"));
    assert_eq!(open_dsd("a.dsf", Some(3)).unwrap(), DsdOpen::Dsf);
    assert_eq!(open_dsd("a.dff", None).unwrap(), DsdOpen::Dff);
    assert_eq!(open_dsd("a.iso", None).unwrap(), DsdOpen::Sacd(0));
    assert_eq!(open_dsd("a.iso", Some(4)).unwrap(), DsdOpen::Sacd(4));
    match open_dsd("/x/a.FLAC", None) {
        Err(Error::Unsupported(s)) => assert_eq!(s, "not a DSD file: .flac (/x/a.FLAC)"),
        _ => panic!("expected a refusal"),
    }
}

const BLOCK: usize = 4096;
const RATE: u32 = 2_822_400;
const DATA_OFFSET: usize = 92;

fn read_all(src: &mut DsfDffSource, file: &[u8]) -> Vec<u8> {
    let mut got = Vec::new();
    let mut buf = Vec::new();
    while let Some(req) = src.read_request() {
        let from = (req.offset as usize).min(file.len());
        let to = (from + req.len as usize).min(file.len());
        if req.exact {
            assert_eq!((to - from) as u64, req.len);
        }
        let more = src.next(&file[from..to], &mut buf);
        assert_eq!(more, !buf.is_empty());
        got.extend_from_slice(&buf);
    }
    assert!(!src.next(&[], &mut buf) && buf.is_empty());
    got
}

fn dsf_file(ch0: &[u8], ch1: &[u8]) -> Vec<u8> {
    let mut b = vec![0u8; DATA_OFFSET];
    for blk in 0..ch0.len() / BLOCK {
        b.extend_from_slice(&ch0[blk * BLOCK..(blk + 1) * BLOCK]);
        b.extend_from_slice(&ch1[blk * BLOCK..(blk + 1) * BLOCK]);
    }
    b
}

fn open_dsf(file: &[u8], samples: u64) -> DsfDffSource {
    DsfDffSource::open_dsf(2, BLOCK as u32, 1, samples, DATA_OFFSET as u64, RATE, file.len() as u64)
        .expect("open")
}

fn channels(blocks: usize) -> (Vec<u8>, Vec<u8>) {
    let ch0 = (0..blocks * BLOCK).map(|i| ((i * 73 + 5) & 0xff) as u8).collect();
    let ch1 = (0..blocks * BLOCK).map(|i| (255 - ((i * 31 + 7) & 0xff)) as u8).collect();
    (ch0, ch1)
}

#[test]
fn dsf_yields_msb_first_interleaved_and_dop_is_lossless() {
    let (ch0, ch1) = channels(1);
    let file = dsf_file(&ch0, &ch1);
    let mut src = open_dsf(&file, (BLOCK * 8) as u64);
    assert_eq!(src.spec().dsd_rate, RATE);
    assert_eq!(src.spec().channels, 2);
    assert_eq!(src.spec().n_frames, Some((BLOCK / 2) as u64));
    let got = read_all(&mut src, &file);
    let mut expected = Vec::with_capacity(2 * BLOCK);
    for i in 0..BLOCK {
        expected.push(ch0[i].reverse_bits());
        expected.push(ch1[i].reverse_bits());
    }
    assert_eq!(got, expected, "source must yield MSB-first clustered DSD");
    let mut dop = DopPacker::new(AlsaFmt::S32, 2);
    let packed = dop.pack(&got).to_vec();
    assert_eq!(packed.len(), got.len() * 2, "S32 DoP = 4 bytes per 2 DSD bytes");
    assert_eq!(unpack(AlsaFmt::S32, 2, &packed).0, got, "DoP round-trip must be exact");
}

#[test]
fn dsf_seek_lands_bit_exact_on_block_boundaries() {
    const BLOCKS: usize = 5;
    let (ch0, ch1) = channels(BLOCKS);
    let file = dsf_file(&ch0, &ch1);
    let samples = (BLOCKS * BLOCK * 8) as u64;
    let reference = read_all(&mut open_dsf(&file, samples), &file);
    let frames_per_block = (BLOCK / 2) as u64;
    assert_eq!(reference.len(), BLOCKS * 2 * BLOCK);
    for k in 0..BLOCKS as u64 {
        let mut src = open_dsf(&file, samples);
        assert_eq!(src.seek(k * frames_per_block), k * frames_per_block);
        assert_eq!(read_all(&mut src, &file), reference[k as usize * 2 * BLOCK..]);
    }
    let mut src = open_dsf(&file, samples);
    let _ = read_all(&mut src, &file);
    assert_eq!(src.seek(frames_per_block), frames_per_block);
    assert_eq!(read_all(&mut src, &file), reference[2 * BLOCK..]);
    // Inside a block as well.
    assert_eq!(src.seek(1000), 1000);
    assert_eq!(read_all(&mut src, &file), reference[4000..]);
    let mut src = open_dsf(&file, samples);
    assert_eq!(src.seek(1_000_000), BLOCKS as u64 * frames_per_block);
    assert!(read_all(&mut src, &file).is_empty(), "no audio past end of stream");
}

#[test]
fn dsf_partial_last_block_trims_padding() {
    const BLOCKS: usize = 3;
    let (ch0, ch1) = channels(BLOCKS);
    let file = dsf_file(&ch0, &ch1);
    let per_channel = (BLOCKS - 1) * BLOCK + 1000;
    let mine = read_all(&mut open_dsf(&file, (per_channel * 8) as u64), &file);
    assert_eq!(mine.len(), per_channel * 2);
    for i in 0..per_channel {
        assert_eq!(mine[2 * i], ch0[i].reverse_bits());
        assert_eq!(mine[2 * i + 1], ch1[i].reverse_bits());
    }
}

#[test]
fn dff_is_passed_through_and_seeks() {
    let audio: Vec<u8> = (0..8000u32).map(|i| ((i * 97 + 3) & 0xff) as u8).collect();
    let mut file = vec![0u8; 130];
    file.extend_from_slice(&audio);
    let open = || DsfDffSource::open_dff(2, 130, 8000, RATE, file.len() as u64).expect("open");
    let mut src = open();
    assert_eq!(src.spec().channels, 2);
    assert_eq!(src.spec().dsd_rate, RATE);
    assert_eq!(read_all(&mut src, &file), audio);
    let mut src = open();
    assert_eq!(src.seek(100), 100);
    assert_eq!(read_all(&mut src, &file), audio[400..]);
}

#[test]
fn a_header_cannot_claim_more_than_the_file_holds() {
    let file = vec![7u8; 110];
    let mut src = DsfDffSource::open_dff(2, 100, 4000, RATE, 110).expect("open");
    assert_eq!(src.spec().n_frames, Some(2));
    assert_eq!(read_all(&mut src, &file).len(), 10);
    assert_eq!(DsfDffSource::open_dff(2, 200, 4000, RATE, 110).expect("open").spec().n_frames, None);
    match DsfDffSource::open_dff(0, 100, 10, RATE, 110) {
        Err(Error::Dsd(s)) => assert_eq!(s, "DSD file reports zero channels"),
        _ => panic!("expected a refusal"),
    }
}

#[test]
fn a_file_cut_short_ends_the_stream() {
    let (ch0, ch1) = channels(3);
    let whole = dsf_file(&ch0, &ch1);
    let samples = (3 * BLOCK * 8) as u64;
    let reference = read_all(&mut open_dsf(&whole, samples), &whole);
    // Cut inside the second channel of the second round of blocks.
    let cut = DATA_OFFSET + 3 * BLOCK + 100;
    let file = &whole[..cut];
    let mut src = open_dsf(file, samples);
    let got = read_all(&mut src, file);
    assert!(src.read_request().is_none());
    assert_eq!(got[..2 * BLOCK], reference[..2 * BLOCK]);
    assert_eq!(got[2 * BLOCK..2 * BLOCK + 200], reference[2 * BLOCK..2 * BLOCK + 200]);
    assert_eq!(got.len(), 2 * BLOCK + (BLOCK + 100) / 2 + 100);
    // The rest of the file is gone when it is read.
    let mut src = open_dsf(&whole, samples);
    let mut buf = vec![9];
    assert!(!src.next(&[], &mut buf));
    assert!(buf.is_empty() && src.read_request().is_none());
    assert_eq!(src.seek(0), 0);
    assert_eq!(read_all(&mut src, &whole), reference);
}

#[test]
fn a_whole_read_leaves_the_padding_out() {
    let (ch0, ch1) = channels(2);
    let file = dsf_file(&ch0, &ch1);
    let per_channel = BLOCK + 10;
    let got = read_all(&mut open_dsf(&file, (per_channel * 8) as u64), &file);
    assert_eq!(got.len(), 2 * per_channel);
    for i in 0..per_channel {
        assert_eq!(got[2 * i], ch0[i].reverse_bits());
        assert_eq!(got[2 * i + 1], ch1[i].reverse_bits());
    }
}

#[test]
fn discs_prefer_stereo_and_seek_by_sector() {
    assert_eq!(pick_area(&[Area::MultiChannel, Area::Stereo]), Some(1));
    assert_eq!(pick_area(&[Area::MultiChannel]), Some(0));
    assert_eq!(pick_area(&[]), None);
    assert_eq!(dop_frames_per_sector(RATE), 2352);
    assert_eq!(sacd_target(RATE, 2352 * 3 + 5), 3);
    assert_eq!(sacd_landed(RATE, 3), 7056);
}

#[test]
fn the_device_has_to_run_at_the_exact_rate() {
    let spec = StreamSpec::new(44_100, 2, 16);
    assert!(configure_hw(spec, 44_100).is_ok());
    let e = configure_hw(spec, 48_000).unwrap_err();
    assert_eq!(
        e.message(),
        "device rejected exact rate 44100 Hz (set 48000 Hz) \u{2014} refusing to resample"
    );
    let mut sink = AlsaSink::open(spec, 44_100, true).unwrap();
    assert_eq!(sink.spec(), spec);
    assert!(sink.can_pause());
    let r = sink.recover(EPIPE);
    assert!(r.reinit && !r.prime);
    sink.enable_reinit_guard();
    let r = sink.recover(ESTRPIPE);
    assert!(r.reinit && r.prime);
    assert!(!sink.recover(5).reinit);
    assert_eq!(sink.xruns(), 1);
    assert_eq!(sink.prime_reinit_silence(), vec![0u8; 44 * 48 * 4]);
}

#[test]
fn transfers_move_by_frames() {
    let mut t = Transfer::new(12, 4);
    assert_eq!(t.pending(), Some(0));
    t.moved(2);
    assert_eq!(t.pending(), Some(8));
    t.moved(1);
    assert_eq!(t.pending(), None);
}

#[test]
fn errors_say_what_went_wrong() {
    assert_eq!(Error::Symphonia("x".to_string()).message(), "decode error: x");
    assert_eq!(Error::Alsa("x".to_string()).message(), "ALSA error: x");
    assert_eq!(Error::Io("x".to_string()).message(), "io error: x");
    assert_eq!(Error::NoTrack.message(), "no decodable audio track found");
    assert_eq!(Error::Dsd("x".to_string()).message(), "DSD source error: x");
    assert_eq!(Error::Unsupported("x".to_string()).message(), "unsupported: x");
}
