use bitperfect::decode::{CodecParams, DecodeEvent, Decoder, PacketEvent, PacketStep};
use bitperfect::devices::{auto_pick, classify, has_usb_dac, list_devices, CardInfo, DeviceKind, PcmInfo};
use bitperfect::dop::dop_silence;
use bitperfect::dsd::DsdSpec;
use bitperfect::engine::audio_thread::{
    pause_silence, AudioThread, Next, Outcome, SegmentClock, SegmentStep,
};
use bitperfect::engine::decode_thread::{
    plan_dsd, plan_pcm, DecodeEngine, Reaction, SegmentWriter, Source, Step, Track, TrackKind,
};
use bitperfect::engine::{
    next_dsd_bytes, next_pcm_bytes, wire_spec, BlockStep, Cmd, Ctl, DopBytes, Flow, FrameBudget,
    PcmBytes, Sched, Stats,
};
use bitperfect::error::Error;
use bitperfect::fadvise::{FadviseReader, ADVISE_THRESHOLD, PAGE};
use bitperfect::format::{AlsaFmt, DeviceFormats, StreamSpec};
use bitperfect::loopback::{compare, diff_frames, find_alignment, queue_wire, within_cap, Verdict};
use bitperfect::ring::{
    pull_block, pull_idle, pull_len, push_block, push_step, ring_for_spec, PullState, PushState,
    PushStep,
};
use bitperfect::sink::silence_for;
use bitperfect::span::Span;

fn params() -> CodecParams {
    CodecParams {
        track_id: 7,
        sample_rate: Some(44_100),
        channels: Some(2),
        bits_per_sample: Some(16),
        n_frames: Some(88_200),
    }
}

fn count_frames(dec: &mut Decoder, total: u64, block: u64) -> u64 {
    let mut left = total;
    let mut frames = 0;
    while left > 0 && !dec.at_limit() {
        let n = left.min(block);
        let mut out = vec![0i32; n as usize * 2];
        assert!(dec.next(true, &mut out));
        frames += out.len() as u64 / 2;
        left -= n;
    }
    frames
}

#[test]
fn limit_trims_to_exact_frames() {
    let mut dec = Decoder::open(params()).unwrap();
    assert!(count_frames(&mut dec, 88_200, 1152) >= 80_000, "decodes the whole file");
    let mut dec = Decoder::open(params()).unwrap();
    dec.set_limit(44_100);
    assert_eq!(count_frames(&mut dec, 88_200, 1152), 44_100, "limit is sample-exact");
    dec.set_limit(22_050);
    assert_eq!(count_frames(&mut dec, 66_150, 4608), 22_050, "re-limit resets the budget");
    dec.set_limit(11_025);
    assert_eq!(count_frames(&mut dec, 77_175, 1), 11_025, "re-seek + re-limit is sample-exact");
}

#[test]
fn packets_of_the_track_are_decoded() {
    let dec = Decoder::open(params()).unwrap();
    assert_eq!(dec.spec, StreamSpec::new(44_100, 2, 16));
    assert_eq!(dec.on_packet(PacketEvent::Packet { track_id: 7 }), PacketStep::Decode);
    assert_eq!(dec.on_packet(PacketEvent::Packet { track_id: 8 }), PacketStep::Skip);
    assert_eq!(dec.on_packet(PacketEvent::End), PacketStep::Finish);
    assert_eq!(dec.on_packet(PacketEvent::ResetRequired), PacketStep::Finish);
    assert_eq!(dec.on_packet(PacketEvent::Failed), PacketStep::Fail);
    assert_eq!(dec.on_decoded(DecodeEvent::Corrupt), PacketStep::Skip);
    assert_eq!(dec.on_decoded(DecodeEvent::Failed), PacketStep::Fail);
    assert_eq!(dec.on_decoded(DecodeEvent::Decoded), PacketStep::Decode);
    let no_rate = CodecParams { sample_rate: None, ..params() };
    assert!(matches!(Decoder::open(no_rate), Err(Error::NoTrack)));
    let unknown_bits = CodecParams { bits_per_sample: None, ..params() };
    assert_eq!(Decoder::open(unknown_bits).unwrap().spec.fmt, AlsaFmt::S32);
}

#[test]
fn reads_are_advised_behind_the_cursor() {
    let total = ADVISE_THRESHOLD * 2 + 1234;
    let mut r = FadviseReader::new(());
    let mut pos = 0u64;
    let mut dropped = 0u64;
    while pos < total {
        let n = (total - pos).min(7919);
        if let Some(a) = r.note_read(n) {
            assert_eq!(a.offset, dropped);
            dropped += a.len;
        }
        pos += n;
    }
    assert!(r.advised() >= ADVISE_THRESHOLD, "expected mid-stream advise");
    assert_eq!(dropped, r.advised());
    assert!(r.advised() <= pos);
    assert_eq!(r.advised() % PAGE, 0);
}

#[test]
fn backward_seek_resets_watermark() {
    let mut r = FadviseReader::new(3u8);
    *r.get_mut() += 1;
    assert_eq!(*r.get_mut(), 4);
    let n = ADVISE_THRESHOLD + PAGE;
    assert!(r.note_read(n).is_some());
    assert!(r.advised() > 0, "advised after a large read");
    assert_eq!(r.seek::<u8>(Ok(0)), Ok(0));
    assert_eq!(r.advised(), 0, "backward seek resets the advise watermark");
    r.note_read(n);
    let a2 = r.advised();
    assert_eq!(r.seek::<u8>(Ok(a2 + PAGE)), Ok(a2 + PAGE));
    assert_eq!(r.advised(), a2, "forward seek keeps the watermark");
    assert_eq!(r.seek(Err(7u8)), Err(7u8));
    assert_eq!(r.advised(), a2, "a failed seek changes nothing");
    assert!(r.seek::<u8>(Ok(a2 - PAGE - 1)).is_ok());
    assert_eq!(r.advised(), a2 - 2 * PAGE, "back to the page of the new position");
}

#[test]
fn a_budget_cuts_the_last_block() {
    let mut b = FrameBudget::new(2, Some(5));
    assert_eq!(b.next(8), BlockStep::Take(8));
    b.advance(8);
    assert_eq!(b.next(8), BlockStep::Take(2));
    b.advance(2);
    assert_eq!(b.next(8), BlockStep::Stop);
    assert_eq!(FrameBudget::new(2, None).next(0), BlockStep::Skip);
}

#[test]
fn pcm_is_gathered_up_to_the_limit() {
    let mut p = PcmBytes::new(StreamSpec::new(44_100, 1, 16), Some(3));
    assert_eq!(p.push(&[1 << 16, 2 << 16]), Flow::Continue);
    assert_eq!(p.push(&[3 << 16, 4 << 16]), Flow::Continue);
    assert_eq!(p.push(&[5 << 16]), Flow::Stop);
    assert_eq!(p.bytes, vec![1, 0, 2, 0, 3, 0]);
}

#[test]
fn dop_is_gathered_up_to_the_limit() {
    let mut p = DopBytes::new(StreamSpec::dop(176_400, 1, AlsaFmt::S24_3), Some(2));
    assert_eq!(p.push(&[1, 2, 3]), Flow::Continue);
    assert_eq!(p.push(&[4, 5, 6]), Flow::Stop);
    assert_eq!(p.bytes, vec![2, 1, 0x05, 4, 3, 0xFA]);
}

#[test]
fn blocks_replace_what_was_in_the_buffer() {
    let mut out = vec![9u8; 3];
    let mut packer = bitperfect::convert::Packer::new(AlsaFmt::S16);
    next_pcm_bytes(&mut packer, &[7 << 16], &mut out);
    assert_eq!(out, vec![7, 0]);
    let mut dop = bitperfect::dop::DopPacker::new(AlsaFmt::S24_3, 1);
    next_dsd_bytes(&mut dop, &[1, 2], &mut out);
    assert_eq!(out, vec![2, 1, 5]);
}

#[test]
fn streams_are_widened_for_the_device() {
    let only32 = DeviceFormats { s16: false, s24_3: false, s32: true };
    let s = StreamSpec::new(44_100, 2, 16);
    assert_eq!(wire_spec(s, &only32).fmt, AlsaFmt::S32);
    let none = DeviceFormats { s16: false, s24_3: false, s32: false };
    assert_eq!(wire_spec(s, &none), s);
}

#[test]
fn the_ring_gives_back_what_was_written() {
    let spec = StreamSpec::new(44_100, 2, 16);
    let (mut p, mut c) = ring_for_spec(spec);
    let data: Vec<u8> = (0..4000u32).map(|i| i as u8).collect();
    assert_eq!(push_block(&mut p, &data, 0, 4), (4000, PushState::Done));
    let mut got = Vec::new();
    let mut buf = Vec::new();
    loop {
        match pull_block(&mut c, 4, 1024, &mut buf) {
            PullState::Got(n) => {
                assert_eq!(n, buf.len());
                assert!(n <= 1024 && n % 4 == 0);
                got.extend_from_slice(&buf);
            }
            PullState::Empty => break,
            PullState::Drained => panic!("the writer is still there"),
        }
    }
    assert_eq!(got, data);
    drop(p);
    assert_eq!(pull_block(&mut c, 4, 1024, &mut buf), PullState::Drained);
}

#[test]
fn whole_frames_are_taken_up_to_the_cap() {
    assert_eq!(pull_len(3, 4, 16), None);
    assert_eq!(pull_len(11, 4, 16), Some(8));
    assert_eq!(pull_len(100, 4, 16), Some(16));
    assert_eq!(pull_len(4, 4, 0), Some(0));
    assert_eq!(pull_idle(false), PullState::Empty);
    assert_eq!(pull_idle(true), PullState::Drained);
}

#[test]
fn a_full_ring_takes_whole_frames_only() {
    let spec = StreamSpec { rate: 10, channels: 1, source_bits: 24, fmt: AlsaFmt::S24_3, is_dop: false };
    let (mut p, c) = ring_for_spec(spec);
    let data = vec![5u8; 2048 * 3 + 300];
    assert_eq!(push_block(&mut p, &data, 0, 3), (2048 * 3, PushState::Full));
    drop(c);
    assert_eq!(push_block(&mut p, &data, 2048 * 3, 3), (2048 * 3, PushState::Gone));
}

#[test]
fn pushing_goes_by_the_room_and_the_reader() {
    assert_eq!(push_step(true, 100, 8, 4), PushStep::Gone);
    assert_eq!(push_step(false, 3, 8, 4), PushStep::Full);
    assert_eq!(push_step(false, 11, 100, 4), PushStep::Write(8));
    assert_eq!(push_step(false, 100, 10, 4), PushStep::Write(10));
    assert_eq!(push_step(false, 8, 8, 4), PushStep::Write(8));
}

fn pcm_track(rate: u32, range: Option<(Span, Span)>) -> Track {
    Track { spec: StreamSpec::new(rate, 2, 16), range, kind: TrackKind::Pcm }
}

#[test]
fn commands_drive_the_queue() {
    let mut e = DecodeEngine::new();
    assert!(matches!(e.step(), Step::Await));
    assert_eq!(e.apply_cmd(Cmd::Play("a".to_string())), Reaction::Restart);
    assert_eq!(e.apply_cmd(Cmd::Enqueue("b".to_string())), Reaction::Nothing);
    assert_eq!(
        e.apply_cmd(Cmd::EnqueueSacd { path: "c.iso".to_string(), track: 2 }),
        Reaction::Nothing
    );
    match e.step() {
        Step::Build(Source { path, range, sacd_track }) => {
            assert_eq!(path, "a");
            assert!(range.is_none() && sacd_track.is_none());
        }
        _ => panic!("expected a source"),
    }
    e.on_built(Some(pcm_track(44_100, None)));
    assert!(matches!(e.step(), Step::Produce(s) if s.rate == 44_100));
    assert_eq!(e.apply_cmd(Cmd::Pause), Reaction::Pause);
    assert!(matches!(e.step(), Step::AwaitPaused));
    assert_eq!(e.apply_cmd(Cmd::Resume), Reaction::Resume);
    e.on_block(true);
    assert!(matches!(e.step(), Step::Produce(_)));
    e.on_block(false);
    assert!(matches!(e.step(), Step::Build(s) if s.path == "b"));
    e.on_built(None);
    assert!(matches!(e.step(), Step::Build(s) if s.sacd_track == Some(2)));
    assert_eq!(e.apply_cmd(Cmd::Stop), Reaction::Restart);
    assert!(matches!(e.step(), Step::Await));
    assert_eq!(e.apply_cmd(Cmd::Quit), Reaction::Quit);
    assert_eq!(e.on_disconnect(true), Reaction::Leave);
    assert_eq!(e.on_disconnect(false), Reaction::Quit);
}

#[test]
fn seeks_stay_inside_a_part_of_a_file() {
    let range = Some((Span::from_secs(10), Span::from_secs(20)));
    let mut e = DecodeEngine::new();
    assert_eq!(e.apply_cmd(Cmd::Seek(Span::from_secs(1))), Reaction::Nothing);
    e.on_built(Some(pcm_track(1000, range)));
    assert_eq!(
        e.apply_cmd(Cmd::Seek(Span::from_secs(3))),
        Reaction::SeekPcm(Span::from_secs(13))
    );
    assert_eq!(
        e.apply_cmd(Cmd::Seek(Span::from_secs(99))),
        Reaction::SeekPcm(Span::from_secs(20))
    );
    assert_eq!(e.on_pcm_seek(Some(13_000)), Some(7000));
    assert_eq!(e.on_pcm_seek(None), None);
    e.on_built(Some(Track {
        spec: StreamSpec::dop(176_400, 2, AlsaFmt::S32),
        range: None,
        kind: TrackKind::Dsd { dsd_rate: 2_822_400 },
    }));
    assert_eq!(e.apply_cmd(Cmd::Seek(Span::from_millis(500))), Reaction::SeekDsd(88_200));
    e.on_dsd_seek(Some(88_000));
}

#[test]
fn segments_are_shared_by_wire_format() {
    let mut e = DecodeEngine::new();
    let spec = StreamSpec::new(44_100, 2, 16);
    let o = e.writer.producer_for(spec).expect("a new segment");
    assert_eq!(o.pos_base, 0);
    let mut reader = o.consumer;
    e.writer.adopt(spec, o.producer);
    assert!(e.writer.has_segment());
    assert!(e.writer.producer_for(StreamSpec { source_bits: 12, ..spec }).is_none());
    assert!(e.writer.producer_for(StreamSpec::new(48_000, 2, 16)).is_some());
    assert_eq!(e.writer.push(&[1, 2, 3, 4], 0, 4), (4, PushState::Done));
    let mut buf = Vec::new();
    let preroll = 44 * 48 * 4;
    assert_eq!(pull_block(&mut reader, 4, 1 << 20, &mut buf), PullState::Got(preroll + 4));
    assert_eq!(buf[..preroll], vec![0u8; preroll][..]);
    assert_eq!(buf[preroll..], [1, 2, 3, 4]);
    assert!(matches!(e.step(), Step::FinishAndAwait));
    assert!(!e.writer.has_segment());
    assert_eq!(pull_block(&mut reader, 4, 1024, &mut buf), PullState::Empty);
    e.writer.release();
    assert_eq!(pull_block(&mut reader, 4, 1024, &mut buf), PullState::Drained);
}

#[test]
fn a_new_segment_starts_with_its_preroll() {
    let dop = StreamSpec::dop(176_400, 2, AlsaFmt::S32);
    let mut w = SegmentWriter::new();
    let o = w.producer_for(dop).expect("a new segment");
    let mut reader = o.consumer;
    w.adopt(dop, o.producer);
    let mut buf = Vec::new();
    let quiet = silence_for(dop, 176 * 48);
    assert!(!quiet.is_empty());
    assert_eq!(pull_block(&mut reader, 8, 1 << 20, &mut buf), PullState::Got(quiet.len()));
    assert_eq!(buf, quiet);
    // Its reader may be gone already.
    let pcm = StreamSpec::new(44_100, 2, 16);
    w.enable_pcm_preroll();
    let o = w.producer_for(pcm).expect("a new segment");
    drop(o.consumer);
    w.adopt(pcm, o.producer);
    assert_eq!(w.push(&[0; 4], 0, 4), (0, PushState::Gone));
}

#[test]
fn the_old_ring_is_held_until_it_is_released() {
    let mut e = DecodeEngine::new();
    let spec = StreamSpec::new(44_100, 2, 16);
    let mut buf = Vec::new();
    for cmd in [Cmd::Stop, Cmd::Play("a".to_string()), Cmd::Seek(Span::from_secs(1)), Cmd::Quit] {
        e.on_built(Some(pcm_track(44_100, None)));
        let o = e.writer.producer_for(spec).expect("a new segment");
        let mut reader = o.consumer;
        e.writer.adopt(spec, o.producer);
        e.apply_cmd(cmd);
        assert!(!e.writer.has_segment());
        assert_eq!(pull_block(&mut reader, 4, 1 << 20, &mut buf), PullState::Got(44 * 48 * 4));
        assert_eq!(pull_block(&mut reader, 4, 1 << 20, &mut buf), PullState::Empty);
        e.writer.release();
        assert_eq!(pull_block(&mut reader, 4, 1 << 20, &mut buf), PullState::Drained);
    }
}

#[test]
fn a_limit_counts_from_when_it_was_set() {
    let mut dec = Decoder::open(params()).unwrap();
    let run = |dec: &mut Decoder, blocks: &[usize]| {
        let mut got = Vec::new();
        let mut next = 0;
        for n in blocks {
            let mut out: Vec<i32> = (next..next + 2 * *n as i32).collect();
            next += 2 * *n as i32;
            if dec.next(true, &mut out) {
                got.extend_from_slice(&out);
            }
        }
        got
    };
    dec.set_limit(10);
    assert_eq!(run(&mut dec, &[4, 4]), (0..16).collect::<Vec<i32>>());
    assert!(!dec.at_limit());
    dec.set_limit(6);
    assert_eq!(run(&mut dec, &[4, 1, 4, 4]), (0..12).collect::<Vec<i32>>());
    assert!(dec.at_limit());
    dec.set_limit(0);
    assert!(dec.at_limit() && run(&mut dec, &[4]).is_empty());
    let mut dec = Decoder::open(params()).unwrap();
    let mut out = vec![3, 4];
    assert!(!dec.next(false, &mut out));
    assert!(dec.next(true, &mut out));
    assert_eq!(out, vec![3, 4]);
}

#[test]
fn parts_of_files_are_planned() {
    let all = DeviceFormats::all();
    let spec = StreamSpec::new(44_100, 2, 16);
    let p = plan_pcm(Some((Span::from_secs(2), Span::from_millis(3500))), spec, &all);
    assert_eq!(p.seek, Some(Span::from_secs(2)));
    assert_eq!(p.limit, Some(66_150));
    assert_eq!(p.spec, spec);
    let p = plan_pcm(Some((Span::from_secs(2), Span::from_secs(2))), spec, &all);
    assert_eq!(p.limit, None);
    let d = DsdSpec { dsd_rate: 2_822_400, channels: 2, n_frames: None };
    assert_eq!(plan_dsd(d, &all).unwrap(), StreamSpec::dop(176_400, 2, AlsaFmt::S24_3));
    let only16 = DeviceFormats { s16: true, s24_3: false, s32: false };
    match plan_dsd(d, &only16) {
        Err(Error::Unsupported(s)) => {
            assert_eq!(s, "device has no 24/32-bit PCM format to carry DoP")
        }
        _ => panic!("expected a refusal"),
    }
}

#[test]
fn the_audio_thread_queues_what_comes_while_playing() {
    let mut t = AudioThread::new(Stats::default());
    assert!(AudioThread::on_idle(Some(Ctl::Flush)).is_none());
    assert!(matches!(AudioThread::on_idle(None), Some(Next::Quit)));
    assert!(matches!(
        AudioThread::on_idle(Some(Ctl::Finish { quit: true })),
        Some(Next::Finish { quit: true })
    ));
    assert_eq!(t.on_playing(None), SegmentStep::Go);
    assert_eq!(t.on_playing(Some(Ctl::Finish { quit: false })), SegmentStep::Go);
    let (_p, c) = ring_for_spec(StreamSpec::new(44_100, 2, 16));
    let open = Ctl::Open { spec: StreamSpec::new(44_100, 2, 16), consumer: c, pos_base: 5 };
    assert_eq!(t.on_paused(open), SegmentStep::Pause);
    assert_eq!(t.on_paused(Ctl::Resume), SegmentStep::Go);
    assert_eq!(t.on_playing(Some(Ctl::Pause)), SegmentStep::Pause);
    assert!(matches!(t.next_directive(), Some(Next::Finish { quit: false })));
    assert!(matches!(t.next_directive(), Some(Next::Open(_, _, 5))));
    assert!(t.next_directive().is_none());
    t.on_playing(Some(Ctl::Finish { quit: false }));
    assert_eq!(t.on_playing(Some(Ctl::Flush)), SegmentStep::Leave(Outcome::Flushed));
    assert_eq!(t.on_paused(Ctl::Quit), SegmentStep::Leave(Outcome::Quit));
    t.on_segment_over(Outcome::Flushed, 3);
    assert!(t.next_directive().is_none());
    assert_eq!(t.stats.xruns, 3);
    assert_eq!(t.stats.sched, Sched::Fallback);
}

#[test]
fn positions_are_reported_every_tenth_of_a_second() {
    let spec = StreamSpec::new(1000, 2, 16);
    let mut stats = Stats { frames: 50, ..Stats::default() };
    let mut c = SegmentClock::new(spec, 700, 1024, 50);
    assert_eq!(c.cap, 4096);
    assert_eq!(c.advance(&mut stats, 99 * 4), None);
    assert_eq!(c.advance(&mut stats, 4), Some(800));
    assert_eq!(c.advance(&mut stats, 40), None);
    assert_eq!(stats.frames, 160);
    assert_eq!(pause_silence(spec, 4), vec![0u8; 16]);
    let dop = StreamSpec::dop(176_400, 1, AlsaFmt::S32);
    assert_eq!(pause_silence(dop, 1), dop_silence(AlsaFmt::S32, 1, 2));
}

fn card(index: u32, driver: &str, id: &str, name: &str, devs: &[u32]) -> CardInfo {
    CardInfo {
        index,
        id: Some(id.to_string()),
        name: Some(name.to_string()),
        driver: Some(driver.to_string()),
        longname: Some(name.to_string()),
        pcms: devs
            .iter()
            .map(|d| PcmInfo { dev: *d, name: format!("pcm{d}") })
            .collect(),
    }
}

#[test]
fn usb_devices_are_preferred() {
    assert_eq!(classify("USB-Audio", ""), DeviceKind::Usb);
    assert_eq!(classify("HDA-Intel", "HDA Intel PCH"), DeviceKind::Internal);
    let cards = vec![
        card(0, "HDA-Intel", "PCH", "HDA Intel PCH", &[0, 3]),
        card(1, "USB-Audio", "Mojo", "Chord Mojo", &[0]),
    ];
    let ds = list_devices(&cards);
    assert_eq!(ds.len(), 3);
    assert!(has_usb_dac(&ds));
    let pick = auto_pick(&ds).unwrap();
    assert!(pick.is_usb());
    assert_eq!(pick.id, "hw:CARD=Mojo,DEV=0");
    assert!(auto_pick(&Vec::new()).is_none());
    assert!(!has_usb_dac(&list_devices(&vec![card(0, "HDA-Intel", "PCH", "x", &[0])])));
}

#[test]
fn identical_streams_match_at_any_delay() {
    let mut played = vec![0u8; 8];
    played.extend((1..=200u8).collect::<Vec<u8>>());
    let mut captured = vec![0u8; 12];
    captured.extend_from_slice(&played);
    assert_eq!(find_alignment(&played, &captured, 4), Some(3));
    assert_eq!(diff_frames(&played, &captured, 4, 3), (0, None, 49));
    assert_eq!(compare(&played, &captured, 4), Verdict::Match { frames: 49, delay: 3 });
    let mut bad = captured.clone();
    bad[12 + 8 + 150] ^= 1;
    match compare(&played, &bad, 4) {
        Verdict::NoAlignment => {}
        Verdict::Differs { diff, .. } => assert!(diff > 0),
        Verdict::Match { .. } => panic!("a changed byte must show"),
    }
}

#[test]
fn a_fault_behind_the_window_is_counted() {
    let frames = 9000usize;
    let played: Vec<u8> = (0..frames * 2).map(|i| (i % 251) as u8 + 1).collect();
    let mut captured = played.clone();
    captured[8500 * 2] ^= 0x40;
    assert_eq!(
        compare(&played, &captured, 2),
        Verdict::Differs { diff: 1, frames, first: 8500, delay: 0 }
    );
}

#[test]
fn output_is_capped() {
    assert_eq!(within_cap(None, 5, 7), Some(7));
    assert_eq!(within_cap(Some(10), 5, 7), Some(5));
    assert_eq!(within_cap(Some(10), 5, 3), Some(3));
    assert_eq!(within_cap(Some(10), 10, 7), None);
    let a = StreamSpec::new(44_100, 2, 16);
    let b = StreamSpec::new(48_000, 2, 16);
    assert_eq!(queue_wire(None, a), Ok(a));
    assert_eq!(queue_wire(Some(a), StreamSpec { source_bits: 8, ..a }), Ok(a));
    assert_eq!(queue_wire(Some(a), b), Err(a));
}

#[test]
fn spans_count_frames() {
    assert_eq!(Span::from_millis(1500).frames_at(44_100), 66_150);
    assert_eq!(Span::from_secs(2).as_millis(), 2000);
    assert_eq!(Span::from_secs(1).saturating_sub(Span::from_secs(2)), Span { nanos: 0 });
    assert_eq!(Span::from_secs(1).min(Span::from_secs(2)), Span::from_secs(1));
}
