use bitperfect::engine::Cmd;
use bitperfect::extract::track_from_path;
use bitperfect::format::{AlsaFmt, StreamSpec};
use bitperfect::labels::{
    added_to_queue, album_cover_px, album_of, apply_theme, artist_meta, artist_of, buffer_index,
    buffer_periods, buffer_text, build_az_index, count_tracks, device_index, find_album,
    format_chip, hw_key, mmss, numbered_title, parse_filter, pick_device, saved_tracks,
    scan_summary, sort_label_text, theme_index, theme_name, up_next_title, window_width, HwKey,
    Scheme, KEY_VOLUMEDOWN, KEY_VOLUMEUP,
};
use bitperfect::lru::{ArtLoads, LruCache};
use bitperfect::model::{Album, Filter, ScanStats, Sort, Track};
use bitperfect::paths::join_path;
use bitperfect::queue::{pseudo_random, shuffle_vec, LovedStep, PlayQueue, Toggle};
use bitperfect::session::{
    ensure_ext, load_playlist, resolve_rel, restore_session, save_playlist, save_session,
    SavedSession,
};
use bitperfect::span::Span;
use bitperfect::standby::{set_inhibited, should_suspend, tick, InhibitStep, Standby};
use bitperfect::worker::{coalesce, Latest, LibWorker, SearchMsg};

fn s(t: &str) -> String {
    t.to_string()
}

fn track(id: i64) -> Track {
    Track { id, ..track_from_path(format!("/m/{id}.flac"), s("/m"), None) }
}

fn queue(n: i64) -> PlayQueue {
    let mut q = PlayQueue::new();
    assert!(q.play_list((1..=n).map(track).collect(), 0));
    q
}

const T: u64 = 600;

#[test]
fn suspends_only_when_idle_no_dac_and_not_busy() {
    assert!(should_suspend(Span::from_secs(601), false, false, Span::from_secs(T)));
}

#[test]
fn dac_connected_never_suspends() {
    assert!(!should_suspend(Span::from_secs(10_000), true, false, Span::from_secs(T)));
}

#[test]
fn playing_or_paused_never_suspends() {
    assert!(!should_suspend(Span::from_secs(10_000), false, true, Span::from_secs(T)));
}

#[test]
fn before_timeout_does_not_suspend() {
    assert!(!should_suspend(Span::from_secs(599), false, false, Span::from_secs(T)));
    assert!(should_suspend(Span::from_secs(T), false, false, Span::from_secs(T)));
}

#[test]
fn standby_is_off_without_a_timeout() {
    assert!(Standby::from_env(None, None, None).is_none());
    assert!(Standby::from_env(Some("0"), None, None).is_none());
    assert!(Standby::from_env(Some("x"), None, None).is_none());
    let sb = Standby::from_env(Some(" 60 "), None, Some(s("  "))).unwrap();
    assert_eq!((sb.timeout, sb.poll), (Span::from_secs(60), Span::from_secs(20)));
    assert!(sb.enter_cmd.is_none());
    let sb = Standby::from_env(Some("60"), Some("0"), Some(s(" x"))).unwrap();
    assert_eq!(sb.poll, Span::from_secs(1));
    assert_eq!(sb.enter_cmd.as_deref(), Some(" x"));
    let t = tick(false, true, false, Span::from_secs(99), Span::from_secs(1));
    assert!(t.in_use && !t.suspend);
    let t = tick(false, false, false, Span::from_secs(99), Span::from_secs(1));
    assert!(!t.in_use && t.suspend);
    assert_eq!(set_inhibited(true, false), InhibitStep::Spawn);
    assert_eq!(set_inhibited(false, true), InhibitStep::Kill);
    assert_eq!(set_inhibited(true, true), InhibitStep::Keep);
}

#[test]
fn a_queue_plays_in_order() {
    let mut q = queue(2);
    match q.start_current().unwrap() {
        st => {
            assert!(matches!(st.cmd, Cmd::Play(p) if p == "/m/1.flac"));
            assert_eq!(st.record, Some(1));
        }
    }
    assert!(q.advance(0));
    assert_eq!(q.current, Some(1));
    assert!(!q.advance(0));
    assert!(!q.playing);
    q.repeat = true;
    assert!(q.advance(0));
    assert_eq!(q.current, Some(0));
    q.shuffle = true;
    assert!(q.advance(7));
    assert_eq!(q.current, Some(1));
    assert!(q.prev_track());
    assert_eq!(q.current, Some(0));
    assert!(q.prev_track());
    assert_eq!(q.current, Some(0));
    assert_eq!(pseudo_random(7, 0), 0);
    assert!(!q.play_list(Vec::new(), 0));
    assert_eq!(q.tracks.len(), 2);
}

#[test]
fn the_play_button_does_what_is_next() {
    let mut q = PlayQueue::new();
    assert_eq!(q.toggle_play(), Toggle::Nothing);
    assert!(q.start_current().is_none());
    q.enqueue_track(track(5));
    assert_eq!(q.toggle_play(), Toggle::Start);
    assert_eq!(q.current, Some(0));
    assert_eq!(q.toggle_play(), Toggle::Pause);
    assert!(q.paused && !q.playing);
    assert_eq!(q.toggle_play(), Toggle::Resume);
    q.clear_queue();
    assert!(q.tracks.is_empty() && q.current.is_none() && !q.playing);
}

#[test]
fn removal_keeps_the_current_track() {
    let mut q = queue(4);
    assert!(q.jump_to(2));
    assert!(!q.jump_to(9));
    q.remove_from_queue(0);
    assert_eq!(q.current_track().unwrap().id, 3);
    q.remove_from_queue(2);
    assert_eq!(q.current_track().unwrap().id, 3);
    q.remove_from_queue(1);
    assert_eq!(q.current_track().unwrap().id, 2);
    q.remove_from_queue(5);
    q.remove_from_queue(0);
    assert_eq!(q.current, None);
    q.play_track_now(track(9));
    assert_eq!(q.current_track().unwrap().id, 9);
    q.enqueue_tracks(vec![track(1), track(2)]);
    assert_eq!(q.up_next(), (1, 3));
}

#[test]
fn seeks_are_held_within_the_track() {
    let mut q = queue(1);
    assert_eq!(q.seek_by(10_000), None);
    q.tracks[0].duration_ms = Some(60_000);
    q.last_pos_ms = 55_000;
    assert_eq!(q.seek_by(10_000), Some(60_000));
    assert_eq!(q.seek_by(-70_000), Some(0));
    assert_eq!(q.seek_by(5_000), Some(5_000));
    assert_eq!(q.current_total_ms(), 60_000);
    q.paused = true;
    q.seek_to();
    assert!(q.playing && !q.paused);
}

#[test]
fn a_started_track_learns_its_rate() {
    let mut q = queue(1);
    assert_eq!(q.on_position(500), None);
    q.resume_to = Some(Span::from_secs(3));
    assert_eq!(q.on_started(StreamSpec::new(1000, 2, 16)), Some(Span::from_secs(3)));
    assert_eq!(q.on_started(StreamSpec::new(2000, 2, 16)), None);
    assert_eq!(q.tracks[0].sample_rate, Some(1000));
    assert_eq!(q.on_position(2500), Some(2));
    assert_eq!(q.last_pos_ms, 2500);
}

#[test]
fn discs_and_parts_are_played_as_such() {
    let mut q = queue(2);
    q.tracks[0].path = s("/m/d.iso#002");
    q.tracks[0].source_path = Some(s("/m/d.iso"));
    q.tracks[1].source_path = Some(s("/m/album.flac"));
    q.tracks[1].start_ms = Some(1000);
    q.tracks[1].duration_ms = Some(500);
    q.tracks[1].id = -1;
    assert!(matches!(
        q.start_current().unwrap().cmd,
        Cmd::PlaySacd { path, track: 1 } if path == "/m/d.iso"
    ));
    q.advance(0);
    let st = q.start_current().unwrap();
    assert_eq!(st.record, None);
    match st.cmd {
        Cmd::PlayRange { path, start, end } => {
            assert_eq!(path, "/m/album.flac");
            assert_eq!((start, end), (Span::from_millis(1000), Span::from_millis(1500)));
        }
        _ => panic!("expected a part"),
    }
}

#[test]
fn love_marks_every_copy() {
    let mut q = queue(2);
    q.enqueue_track(track(1));
    assert_eq!(q.toggle_loved(0, true, true), LovedStep::NotInLibrary);
    assert_eq!(q.toggle_loved(1, true, false), LovedStep::NotStored);
    assert!(!q.tracks[0].loved);
    assert_eq!(q.toggle_loved(1, true, true), LovedStep::Done);
    assert!(q.tracks[0].loved && !q.tracks[1].loved && q.tracks[2].loved);
}

#[test]
fn shuffling_is_a_permutation() {
    let mut v: Vec<u32> = (0..50).collect();
    shuffle_vec(&mut v, Some(12_345));
    assert_ne!(v, (0..50).collect::<Vec<u32>>());
    let mut sorted = v.clone();
    sorted.sort();
    assert_eq!(sorted, (0..50).collect::<Vec<u32>>());
    // By hand: the seed is 2|1 = 3; one step of the generator decides one swap.
    let mut seed: u64 = 3;
    seed ^= seed << 13;
    seed ^= seed >> 7;
    seed ^= seed << 17;
    let mut two = vec!['a', 'b'];
    shuffle_vec(&mut two, Some(2));
    assert_eq!(two, if seed % 2 == 0 { vec!['b', 'a'] } else { vec!['a', 'b'] });
    let mut none: Vec<u8> = Vec::new();
    shuffle_vec(&mut none, None);
    assert!(none.is_empty());
}

#[test]
fn sessions_come_back() {
    let paths = vec![s("/m/a.flac"), s("/m/b c.flac")];
    let saved = save_session(&paths, Some(1), 1500);
    assert_eq!(saved.queue, "/m/a.flac\n/m/b c.flac");
    assert_eq!((saved.current.as_str(), saved.pos_ms.as_str()), ("1", "1500"));
    let back = restore_session(&saved).unwrap();
    assert_eq!(back.paths, paths);
    assert_eq!((back.current, back.resume_ms), (Some(1), Some(1500)));
    let mut q = PlayQueue::new();
    q.restore(vec![track(1), track(2)], back.current, back.resume_ms);
    assert_eq!(q.resume_to, Some(Span::from_millis(1500)));
    assert!(!q.playing);
    let bad = SavedSession { queue: s("a\n\nb\r\n"), current: s("2"), pos_ms: s("x") };
    let back = restore_session(&bad).unwrap();
    assert_eq!(back.paths, vec![s("a"), s("b")]);
    assert_eq!((back.current, back.resume_ms), (None, None));
    let blank = SavedSession { queue: s(" \n"), current: s("0"), pos_ms: s("0") };
    assert!(restore_session(&blank).is_none());
    assert_eq!(save_session(&Vec::new(), None, 0).current, "");
}

#[test]
fn playlists_come_back() {
    let paths = vec![s("/m/a.flac"), s("/n/b.flac")];
    let text = save_playlist(&paths);
    assert_eq!(text, "#EXTM3U\n/m/a.flac\n/n/b.flac\n");
    assert_eq!(load_playlist(&text, Some("/elsewhere")), paths);
    assert_eq!(
        load_playlist("#EXTINF:1\r\n  x/y.flac \r\n\n/z\n", Some("/p")),
        vec![s("/p/x/y.flac"), s("/z")]
    );
    assert_eq!(resolve_rel("a", None), "a");
    assert_eq!(join_path("/p/", "a"), "/p/a");
    assert_eq!(ensure_ext("/p/list.M3U", "m3u"), "/p/list.M3U");
    for p in ["/p/list", "/p/list.txt", "/p/a.b.c", "list", "/p/.hidden", "/p/dir/", "..", "/"] {
        let want = std::path::Path::new(p).with_extension("m3u");
        assert_eq!(ensure_ext(p, "m3u"), want.to_str().unwrap());
    }
}

#[test]
fn the_cache_forgets_what_was_used_longest_ago() {
    let mut c: LruCache<u32> = LruCache::new(2);
    c.insert(s("a"), 46, 1);
    c.insert(s("b"), 46, 2);
    assert_eq!(c.get(&s("a"), 46), Some(&1));
    assert_eq!(c.get(&s("a"), 40), None);
    c.insert(s("c"), 46, 3);
    assert_eq!(c.get(&s("b"), 46), None);
    assert_eq!(c.get(&s("a"), 46), Some(&1));
    c.insert(s("a"), 46, 9);
    assert_eq!(c.get(&s("a"), 46), Some(&9));
    assert_eq!(c.get(&s("c"), 46), Some(&3));
    let mut none: LruCache<u32> = LruCache::new(0);
    none.insert(s("a"), 1, 1);
    none.insert(s("b"), 1, 2);
    assert_eq!(none.get(&s("b"), 1), Some(&2));
    assert_eq!(none.get(&s("a"), 1), None);
}

#[test]
fn a_picture_is_loaded_once() {
    let mut l = ArtLoads::new();
    assert!(l.request(&s("a"), 46));
    assert!(!l.request(&s("a"), 46));
    assert!(l.request(&s("a"), 40));
    l.finish(&s("a"), 46);
    assert!(l.request(&s("a"), 46));
}

#[test]
fn only_the_latest_answer_is_shown() {
    let mut w = LibWorker::new();
    let a = w.submit(true);
    let act = w.submit(false);
    let b = w.submit(true);
    assert!(w.still_pending(b) && !w.still_pending(a));
    assert!(!w.done(a));
    assert!(w.done(act));
    assert!(w.done(b));
    assert!(!w.done(b));
    assert!(!w.still_pending(b));
}

#[test]
fn bursts_come_down_to_the_last_query() {
    let q = |seq: u64| SearchMsg::Query { seq, text: s("x"), filter: Filter::All };
    let b = coalesce(vec![q(1), SearchMsg::Reindex, q(2)]);
    assert!(b.reindex);
    assert_eq!(b.latest.unwrap().0, 2);
    let b = coalesce(vec![SearchMsg::Reindex]);
    assert!(b.latest.is_none() && b.reindex);
    let mut l = Latest::new();
    let first = l.kick_search("miles").unwrap();
    assert!(l.is_current(first));
    assert!(l.kick_search("  ").is_none());
    assert!(!l.is_current(first));
    let g = l.bump();
    assert!(l.is_current(g));
}

#[test]
fn labels_count() {
    assert_eq!(mmss(61), "1:01");
    assert_eq!(artist_meta(1, 2), "1 album \u{b7} 2 tracks");
    assert_eq!(added_to_queue(1), "Added 1 track to queue");
    assert_eq!(added_to_queue(3), "Added 3 tracks to queue");
    assert_eq!(saved_tracks(2), "Saved 2 tracks");
    assert_eq!(up_next_title(0), "Up Next");
    assert_eq!(up_next_title(4), "Up Next \u{b7} 4");
    let st = ScanStats { added: 1, updated: 2, moved: 3, removed: 4, unchanged: 5, ..ScanStats::default() };
    assert_eq!(scan_summary(&st), "Indexed \u{b7} +1 ~5 \u{2212}4 (11 tracks)");
    assert_eq!(sort_label_text(Sort::Year), "Year \u{2014} newest");
}

#[test]
fn the_chip_names_the_signal() {
    assert_eq!(format_chip(StreamSpec::new(44_100, 2, 16)), "16-bit \u{b7} 44.1 kHz \u{b7} S16_LE");
    assert_eq!(
        format_chip(StreamSpec::dop(176_400, 2, AlsaFmt::S32)),
        "DSD64 \u{b7} DoP \u{b7} 176.4 kHz \u{b7} S32_LE"
    );
}

fn album(name: &str, artist: Option<&str>, n: u32) -> Album {
    Album {
        album: s(name),
        album_artist: artist.map(s),
        year: None,
        track_count: n,
        total_ms: 0,
        art_hash: None,
    }
}

#[test]
fn the_index_jumps_to_each_letter() {
    let albums =
        vec![album("abba", Some("Z"), 1), album("Alina", Some("z"), 2), album("", None, 3), album("Blue", None, 4)];
    assert_eq!(build_az_index(&albums, Sort::Album), vec![('A', 0), ('B', 3)]);
    assert_eq!(build_az_index(&albums, Sort::Artist), vec![('Z', 0)]);
    assert!(build_az_index(&albums, Sort::Year).is_empty());
    assert_eq!(find_album(&albums, "Alina", Some("z")), Some(1));
    assert_eq!(find_album(&albums, "Alina", None), None);
    assert_eq!(find_album(&albums, "Blue", None), Some(3));
    assert_eq!(count_tracks(&albums), 10);
    let mut t = track(1);
    t.duration_ms = Some(7);
    let mut u = track(2);
    u.year = Some(1990);
    u.art_hash = Some(s("h"));
    let a = Album::of_tracks(s("X"), None, &vec![t, u]);
    assert_eq!((a.year, a.track_count, a.total_ms), (Some(1990), 2, 7));
    assert_eq!(a.art_hash.as_deref(), Some("h"));
}

#[test]
fn tracks_lead_to_artist_and_album() {
    let mut t = track(1);
    assert_eq!(numbered_title(&t), "1");
    t.track_no = Some(4);
    assert_eq!(numbered_title(&t), "4.  1");
    t.artist = Some(s("A"));
    assert_eq!(artist_of(&t).as_deref(), Some("A"));
    t.album_artist = Some(s(""));
    assert_eq!(artist_of(&t), None);
    assert_eq!(album_of(&t), None);
    t.album = Some(s("L"));
    assert_eq!(album_of(&t).as_deref(), Some("L"));
}

#[test]
fn covers_come_in_steps_of_eight() {
    assert_eq!(album_cover_px(360), 80);
    assert_eq!(album_cover_px(540), 144);
    assert_eq!(album_cover_px(10_000), 240);
    assert_eq!(album_cover_px(0), 80);
    assert_eq!(window_width(0, 360, None), 360);
    assert_eq!(window_width(900, 360, Some(720)), 720);
    assert_eq!(window_width(500, 360, Some(0)), 500);
}

#[test]
fn settings_are_shown_as_saved() {
    for i in 0..4 {
        assert_eq!(buffer_index(buffer_periods(i)), i);
    }
    assert_eq!(buffer_index(5), 1);
    assert_eq!(buffer_text(8), "Output buffer \u{2192} 8192 frames");
    for i in 0..3 {
        assert_eq!(theme_index(Some(theme_name(i))), i);
    }
    assert_eq!(theme_index(None), 0);
    assert_eq!(apply_theme(None), Scheme::PreferDark);
    assert_eq!(apply_theme(Some("light")), Scheme::ForceLight);
    assert_eq!(apply_theme(Some("dark")), Scheme::ForceDark);
    assert_eq!(apply_theme(Some("system")), Scheme::SystemDefault);
    assert_eq!(pick_device(None, None, None), "hw:0,0");
    assert_eq!(pick_device(None, Some(s("e")), Some(s("f"))), "e");
    assert_eq!(device_index(&Vec::new(), "x"), 0);
    assert_eq!(parse_filter("ALBUMS"), Filter::Albums);
    assert_eq!(parse_filter("tracks"), Filter::Tracks);
    assert_eq!(parse_filter("artists"), Filter::Artists);
    assert_eq!(parse_filter("folders"), Filter::All);
    assert_eq!(hw_key(KEY_VOLUMEDOWN, 1), Some(HwKey::VolumeDown));
    assert_eq!(hw_key(KEY_VOLUMEUP, 1), Some(HwKey::VolumeUp));
    assert_eq!(hw_key(KEY_VOLUMEUP, 0), None);
    assert_eq!(hw_key(30, 1), None);
}
