use bitperfect::browse::{
    album_order, limit_clause, load_tracks_by_ids, migrate, placeholders, row_to_track,
    track_order, Migration, TrackRow, PARAM_CHUNK,
};
use bitperfect::cue::{
    decode_text, file_name, parse_file, parse_index_ms, split_first, CueSheet,
};
use bitperfect::error::{to_core_err, Error, LibError};
use bitperfect::extract::{
    codec_label, cover_art, extract, extract_dsf, folder_cover, is_audio, is_sacd_id, norm,
    parse_year, track_from_path, with_folder_fallback, Extracted, FileKind, RawAudio, RawDsf,
    RawPicture, RawTag, SacdAlbum, SacdTrackMeta,
};
use bitperfect::model::{
    fmt_dur_ms, fmt_khz, Album, Artist, Filter, Folder, ScanStats, Sort, Track,
};
use bitperfect::scan::{
    build_row, candidate, escape_like, insert_cue_tracks, insert_iso_tracks, is_referenced,
    strip_cue_suffix, tracks_pattern, unreferenced, AudioInfo, Candidate, Change, FileState, Msg,
    Row, ScanWriter, WriteOp,
};
use bitperfect::search::{
    best_ids, can_match, hays_from, match_topn, pick_items, searchable, Hay, SearchIndex, TrackHits,
    MAX_QUERY,
};
use bitperfect::sheets::{count_tracks, SigRow, VirtualScan, Visit};
use bitperfect::span::Span;

fn s(t: &str) -> String {
    t.to_string()
}

fn track(id: i64, path: &str) -> Track {
    Track { id, ..track_from_path(s(path), s("/m"), None) }
}

#[test]
fn index_to_ms() {
    assert_eq!(parse_index_ms("00:00:00"), 0);
    assert_eq!(parse_index_ms("09:22:00"), 562_000);
    // 37 frames = 37/75 s = 493.33 ms → 493 (integer).
    assert_eq!(parse_index_ms("01:30:37"), 90_000 + 493);
    assert_eq!(parse_index_ms("x: 5"), 5000);
    assert_eq!(parse_index_ms(""), 0);
}

#[test]
fn parses_single_file_sheet() {
    let text = r#"REM GENRE Jazz
REM DATE 1959
PERFORMER "Miles Davis"
TITLE "Kind of Blue"
FILE "Kind of Blue.flac" WAVE
  TRACK 01 AUDIO
    TITLE "So What"
    PERFORMER "Miles Davis"
    INDEX 01 00:00:00
  TRACK 02 AUDIO
    TITLE "Freddie Freeloader"
    INDEX 01 09:22:00
"#;
    let s = CueSheet::parse(text);
    assert_eq!(s.title.as_deref(), Some("Kind of Blue"));
    assert_eq!(s.performer.as_deref(), Some("Miles Davis"));
    assert_eq!(s.date, Some(1959));
    assert_eq!(s.genre.as_deref(), Some("Jazz"));
    assert_eq!(s.files.len(), 1);
    let f = &s.files[0];
    assert_eq!(f.name, "Kind of Blue.flac");
    assert_eq!(f.tracks.len(), 2);
    assert_eq!(f.tracks[0].title.as_deref(), Some("So What"));
    assert_eq!(f.tracks[0].start_ms, 0);
    assert_eq!(f.tracks[1].title.as_deref(), Some("Freddie Freeloader"));
    assert_eq!(f.tracks[1].start_ms, 562_000);
}

#[test]
fn sheets_tolerate_what_is_odd() {
    // A track before any file is lost, and what follows speaks of the sheet again.
    let sheet = CueSheet::parse("TRACK 01 AUDIO\nFILE a.wav WAVE\nTITLE \"T\"\r\n\n  rem date (1999)\n");
    assert_eq!(sheet.title.as_deref(), Some("T"));
    assert_eq!(sheet.date, Some(1999));
    assert_eq!(sheet.files.len(), 1);
    assert!(sheet.files[0].tracks.is_empty());
    let two = CueSheet::parse("FILE a.wav WAVE\nTRACK 1 AUDIO\nINDEX 00 00:09:00\nINDEX 01 00:10:00\nFILE b c.flac\nTRACK x AUDIO");
    assert_eq!(two.files.len(), 2);
    assert_eq!(two.files[0].tracks[0].start_ms, 10_000);
    assert_eq!(two.files[1].name, "b c.flac");
    assert_eq!(two.files[1].tracks[0].number, 0);
}

#[test]
fn file_names_in_sheets_lose_quotes_and_type() {
    let name = |t: &str| file_name(&t.chars().collect::<Vec<char>>());
    assert_eq!(name("\"a b.wav\" WAVE"), "a b.wav");
    assert_eq!(name("a b.wav wave"), "a b.wav");
    assert_eq!(name("a.wav"), "a.wav");
    assert_eq!(name("\"open.wav WAVE"), "\"open.wav");
}

#[test]
fn sheet_bytes_are_read_leniently() {
    assert_eq!(decode_text(b"\xEF\xBB\xBFabc"), "abc");
    assert_eq!(decode_text(b"a\xFFb"), "a\u{FFFD}b");
    assert_eq!(decode_text("Pärt".as_bytes()), "Pärt");
    assert!(parse_file(b"TITLE \"x\"\nFILE a.wav WAVE").is_none());
    assert!(parse_file(b"FILE a.wav WAVE\nTRACK 01 AUDIO").is_some());
}

fn info(source: &str, duration_ms: Option<u64>) -> AudioInfo {
    AudioInfo {
        source: s(source),
        duration_ms,
        codec: Some(s("FLAC")),
        sample_rate: Some(44_100),
        bits: Some(16),
        channels: Some(2),
        art_hash: None,
    }
}

#[test]
fn cue_sheet_splits_into_tracks() {
    let sheet = CueSheet::parse(
        "PERFORMER \"Test Artist\"\n\
         TITLE \"Test Album\"\n\
         FILE \"album.flac\" WAVE\n\
         \x20\x20TRACK 01 AUDIO\n\
         \x20\x20\x20\x20TITLE \"First\"\n\
         \x20\x20\x20\x20INDEX 01 00:00:00\n\
         \x20\x20TRACK 02 AUDIO\n\
         \x20\x20\x20\x20TITLE \"Second\"\n\
         \x20\x20\x20\x20INDEX 01 00:01:00\n",
    );
    assert_eq!(count_tracks(&sheet), 2);
    let rows = insert_cue_tracks(
        "/m/album.cue",
        "/m",
        &sheet,
        &vec![Some(info("/m/album.flac", Some(3000)))],
        (5, 6),
    );
    assert_eq!(rows.len(), 2, "two cue tracks added");
    assert_eq!(rows[0].path, "/m/album.cue#001");
    assert_eq!(rows[0].title, "First");
    assert_eq!(rows[0].album.as_deref(), Some("Test Album"));
    assert_eq!(rows[0].artist.as_deref(), Some("Test Artist"));
    assert_eq!(rows[0].start_ms, Some(0));
    assert_eq!(rows[0].duration_ms, 1000, "track 1 = gap to track 2's start");
    assert_eq!(rows[1].start_ms, Some(1000));
    assert!(rows[1].duration_ms >= 1500, "track 2 runs to file end");
    assert_eq!(rows[1].source_path, "/m/album.flac");
    assert_eq!((rows[1].mtime_ns, rows[1].size), (5, 6));
    assert!(insert_cue_tracks("/m/album.cue", "/m", &sheet, &vec![None], (5, 6)).is_empty());

    // The file is the sheet's own while the sheet is there.
    let sheets = vec![(s("/m"), sheet)];
    assert!(is_referenced(&sheets, "/m/./album.flac"));
    assert_eq!(unreferenced(vec![s("/m/album.flac"), s("/m/b.flac")], &sheets), vec![s("/m/b.flac")]);
}

#[test]
fn an_unchanged_sheet_is_skipped() {
    let rows = vec![
        SigRow { path: s("/m/a.cue#001"), sig: (1, 2) },
        SigRow { path: s("/m/a.cue#002"), sig: (1, 9) },
        SigRow { path: s("/m/b.cue#001"), sig: (3, 4) },
        SigRow { path: s("/m/odd"), sig: (0, 0) },
    ];
    let mut v = VirtualScan::new(&rows);
    assert_eq!(v.visit("/m/a.cue", Some((1, 2)), false), Visit::Unchanged);
    assert_eq!(v.count("/m/a.cue"), 2);
    assert_eq!(v.visit("/m/c.cue", Some((1, 2)), false), Visit::Rebuild);
    assert_eq!(v.visit("/m/d.cue", None, false), Visit::Skip);
    assert_eq!(v.vanished(), vec![s("/m/b.cue")]);
    let mut d = VirtualScan::new(&rows);
    assert_eq!(d.visit("/m/a.cue", Some((1, 2)), true), Visit::Rebuild);
    assert_eq!(d.visit("/m/b.cue", Some((3, 5)), true), Visit::Rebuild);
    assert_eq!(d.visit("/m/b.cue", Some((3, 4)), true), Visit::Unchanged);
    assert!(d.vanished().is_empty());
}

#[test]
fn discs_become_tracks_that_lead_back() {
    let album = SacdAlbum {
        album: Some(s("Disc")),
        album_artist: Some(s("Band")),
        channels: 2,
        tracks: vec![
            SacdTrackMeta { title: Some(s("One")), artist: None, duration_ms: 10 },
            SacdTrackMeta { title: None, artist: Some(s("Guest")), duration_ms: 20 },
        ],
    };
    let rows = insert_iso_tracks("/m/d.iso", "/m", &album, &Some(s("h")), (1, 2));
    assert_eq!(rows.len(), 2);
    assert_eq!(rows[0].artist.as_deref(), Some("Band"));
    assert_eq!(rows[1].title, "Track 02");
    assert_eq!(rows[1].artist.as_deref(), Some("Guest"));
    assert_eq!(rows[1].codec.as_deref(), Some("DSD64"));
    assert_eq!(rows[1].start_ms, None);
    assert_eq!(strip_cue_suffix(&rows[1].path), Some(s("/m/d.iso")));
    let mut t = track(1, &rows[1].path);
    t.source_path = Some(rows[1].source_path.clone());
    assert_eq!(t.sacd_track(), Some(1));
    assert!(t.cue_range().is_none());
    t.start_ms = Some(0);
    assert_eq!(t.sacd_track(), None);
}

#[test]
fn track_paths_are_told_from_other_paths() {
    assert_eq!(strip_cue_suffix("/m/a#b.cue#012"), Some(s("/m/a#b.cue")));
    assert_eq!(strip_cue_suffix("/m/a.cue#"), None);
    assert_eq!(strip_cue_suffix("/m/a.cue#1x"), None);
    assert_eq!(strip_cue_suffix("/m/a.cue"), None);
    assert_eq!(escape_like("50%_\\x"), "50\\%\\_\\\\x");
    assert_eq!(tracks_pattern("a_b"), "a\\_b#%");
}

fn extracted() -> Extracted {
    extract(RawAudio {
        duration_ms: 0,
        kind: FileKind::Flac,
        sample_rate: None,
        bits: None,
        channels: None,
        tag: None,
    })
}

fn row(existing_id: Option<i64>, path: &str, sig: (i64, i64)) -> Row {
    Row {
        existing_id,
        path: s(path),
        folder: s("/m"),
        mtime_ns: sig.0,
        size: sig.1,
        art_hash: None,
        e: extracted(),
    }
}

#[test]
fn scan_settles_new_moved_and_gone() {
    let fs = |id: i64, m: i64, z: i64| FileState { id, mtime_ns: m, size: z };
    let existing = vec![fs(1, 10, 100), fs(2, 20, 200), fs(3, 30, 300), fs(4, 20, 200)];
    assert_eq!(build_row(Some(existing[0]), false, 10, 100), Change::Unchanged(1));
    assert_eq!(build_row(Some(existing[0]), true, 10, 100), Change::Read(Some(1)));
    assert_eq!(build_row(Some(existing[0]), false, 10, 101), Change::Read(Some(1)));
    assert_eq!(build_row(None, false, 0, 0), Change::Read(None));
    let mut w = ScanWriter::new();
    assert!(matches!(w.on_msg(Msg::Unchanged(1)), WriteOp::Nothing));
    assert!(matches!(w.on_msg(Msg::Upsert(row(Some(3), "/m/c", (31, 300)))), WriteOp::Update(3, _)));
    assert!(matches!(w.on_msg(Msg::Upsert(row(None, "/m/b2", (20, 200)))), WriteOp::Nothing));
    assert!(matches!(w.on_msg(Msg::Upsert(row(None, "/m/b3", (20, 200)))), WriteOp::Nothing));
    assert!(matches!(w.on_msg(Msg::Upsert(row(None, "/m/new", (50, 500)))), WriteOp::Nothing));
    assert!(matches!(w.on_msg(Msg::Failed), WriteOp::Nothing));
    let p = w.settle(&existing);
    assert_eq!(p.moves, vec![Some(2), Some(4), None]);
    assert!(p.removed.is_empty());
    let st = &w.stats;
    assert_eq!((st.added, st.updated, st.moved, st.removed), (1, 1, 2, 0));
    assert_eq!((st.unchanged, st.errors, st.total_seen()), (1, 1, 5));
}

#[test]
fn files_of_one_signature_move_one_by_one() {
    let fs = |id: i64| FileState { id, mtime_ns: 7, size: 70 };
    let settle = |gone: i64, new: usize| {
        let existing: Vec<FileState> = (1..=gone).map(fs).collect();
        let mut w = ScanWriter::new();
        for i in 0..new {
            w.on_msg(Msg::Upsert(row(None, &format!("/m/{i}"), (7, 70))));
        }
        let p = w.settle(&existing);
        (p.moves, p.removed, w.stats.moved, w.stats.added, w.stats.removed)
    };
    assert_eq!(settle(2, 2), (vec![Some(1), Some(2)], vec![], 2, 0, 0));
    assert_eq!(settle(3, 1), (vec![Some(1)], vec![2, 3], 1, 0, 2));
    assert_eq!(settle(1, 3), (vec![Some(1), None, None], vec![], 1, 2, 0));
}

#[test]
fn a_second_scan_finds_nothing_to_do() {
    let existing = vec![FileState { id: 1, mtime_ns: 1, size: 1 }];
    let mut w = ScanWriter::new();
    w.on_msg(Msg::Unchanged(1));
    let p = w.settle(&existing);
    assert!(p.moves.is_empty() && p.removed.is_empty());
    assert_eq!((w.stats.added, w.stats.removed, w.stats.unchanged), (0, 0, 1));
}

#[test]
fn files_are_sorted_by_name() {
    assert_eq!(candidate("/m/a.FLAC"), Candidate::Audio);
    assert_eq!(candidate("/m/a.cue"), Candidate::Cue);
    assert_eq!(candidate("/m/a.ISO"), Candidate::Iso);
    assert_eq!(candidate("/m/a.txt"), Candidate::Other);
    for ext in [
        "flac", "wav", "wave", "aif", "aiff", "aifc", "m4a", "mp4", "alac", "ape", "wv", "mpc",
        "opus", "ogg", "oga", "mp3", "spx", "dsf",
    ] {
        assert!(is_audio(&format!("x.{ext}")));
    }
    assert!(!is_audio("flac"));
    assert!(is_sacd_id(b"SACDMTOC"));
    assert!(!is_sacd_id(b"SACDMTO"));
}

#[test]
fn tags_are_trimmed_and_dated() {
    assert_eq!(norm(&Some(s("  a "))), Some(s("a")));
    assert_eq!(norm(&Some(s("   "))), None);
    assert_eq!(parse_year("released 12 1973-05"), Some(1973));
    assert_eq!(parse_year("73"), None);
    let raw = RawAudio {
        duration_ms: 61_000,
        kind: FileKind::Other(s("Aac")),
        sample_rate: Some(48_000),
        bits: Some(24),
        channels: Some(2),
        tag: Some(RawTag {
            title: Some(s(" T ")),
            artist: None,
            album: None,
            genre: None,
            album_artist: None,
            composer: None,
            track_no: Some(3),
            disc_no: None,
            year: None,
            recording_date: Some(s("2001-01-01")),
            picture: Some(RawPicture { data: b"hello".to_vec(), mime: None }),
        }),
    };
    let e = extract(raw);
    assert_eq!(e.title.as_deref(), Some("T"));
    assert_eq!(e.year, Some(2001));
    assert_eq!(e.codec.as_deref(), Some("Aac"));
    assert_eq!(e.duration_ms, Some(61_000));
    let art = e.art.as_ref().expect("a picture");
    assert_eq!(art.mime, "image/jpeg");
    // The digest of b"hello", as the hash's own tool prints it.
    assert_eq!(art.hash, "ea8f163db38682925e4491c5e58d4bb3506ef8c14eb78a86e908c5624a67200f");
    let t = track_from_path(s("/m/a.flac"), s("/m"), Some(e));
    assert_eq!(t.id, -1);
    assert_eq!(t.track_no, Some(3));
    assert_eq!(t.art_hash, None);
    assert_eq!(extracted().duration_ms, None);
    assert_eq!(codec_label(&FileKind::Mp4), "M4A");
    assert_eq!(codec_label(&FileKind::Mpc), "Musepack");
}

#[test]
fn dsd_files_are_described() {
    let e = extract_dsf(RawDsf { channels: 2, rate_multiple: 2, audio_len: 1_411_200, tag: None });
    assert_eq!(e.codec.as_deref(), Some("DSD128"));
    assert_eq!(e.duration_ms, Some(1000));
    assert_eq!(e.sample_rate, None);
    let none = extract_dsf(RawDsf { channels: 2, rate_multiple: 0, audio_len: 0, tag: None });
    assert_eq!(none.codec.as_deref(), Some("DSD64"));
    assert_eq!(none.duration_ms, None);
}

#[test]
fn covers_in_the_folder_are_ranked() {
    let files = vec![s("/m/thumb.png"), s("/m/Folder.JPG"), s("/m/front.gif"), s("/m/cover.txt")];
    assert_eq!(folder_cover(&files), Some(1));
    assert_eq!(folder_cover(&vec![s("/m/a.jpg")]), None);
    assert_eq!(folder_cover(&vec![s("cover.jpg"), s("cover.png"), s("Cover.jpg")]), Some(2));
    assert_eq!(folder_cover(&vec![s("cover.png"), s("cover.jpg")]), Some(1));
    assert_eq!(folder_cover(&vec![s("cover.jpg"), s("cover.png")]), Some(0));
    assert_eq!(folder_cover(&vec![s("thumb.gif"), s("album.jpeg"), s("album.jpg")]), Some(1));
    let art = cover_art("/m/Cover.PNG", vec![1, 2, 3]).unwrap();
    assert_eq!(art.mime, "image/png");
    assert!(cover_art("/m/cover.jpg", Vec::new()).is_none());
    assert_eq!(cover_art("/m/cover.jpeg", vec![1, 2, 3]).unwrap().mime, "image/jpeg");
    assert_eq!(cover_art("/m/cover.jpeg", vec![1, 2, 3]).unwrap().hash, art.hash);
    let e = with_folder_fallback(extracted(), Some(art));
    assert_eq!(e.art.unwrap().mime, "image/png");
}

#[test]
fn khz_are_rounded_as_printed() {
    for rate in (0..400_000u32).step_by(7).chain([44_100, 88_200, 22_050, 11_025, 48_000, 1, 999]) {
        let want = if rate % 1000 == 0 {
            format!("{} kHz", rate / 1000)
        } else {
            format!("{:.1} kHz", rate as f64 / 1000.0)
        };
        assert_eq!(fmt_khz(rate), want);
    }
    for rate in (u32::MAX - 5000)..=u32::MAX {
        let want = if rate % 1000 == 0 {
            format!("{} kHz", rate / 1000)
        } else {
            format!("{:.1} kHz", rate as f64 / 1000.0)
        };
        assert_eq!(fmt_khz(rate), want);
    }
    for k in (0..4_294_967u32).step_by(1013) {
        let rate = k * 1000 + 50;
        assert_eq!(fmt_khz(rate), format!("{:.1} kHz", rate as f64 / 1000.0));
    }
}

#[test]
fn durations_are_shown_as_clocks() {
    assert_eq!(fmt_dur_ms(0), "0:00");
    assert_eq!(fmt_dur_ms(61_999), "1:01");
    assert_eq!(fmt_dur_ms(3_600_000 + 62_000), "1:01:02");
}

#[test]
fn tracks_describe_themselves() {
    let mut t = track(1, "/m/some song.flac");
    assert_eq!(t.display_title(), "some song");
    assert_eq!(t.subtitle(), "Unknown Artist");
    assert_eq!(t.format_spec(), "");
    t.title = Some(s("T"));
    t.artist = Some(s("A"));
    assert_eq!(t.subtitle(), "A");
    t.album = Some(s("L"));
    t.codec = Some(s("FLAC"));
    t.sample_rate = Some(44_100);
    t.bits = Some(16);
    t.duration_ms = Some(61_000);
    assert_eq!(t.subtitle(), "A \u{b7} L");
    assert_eq!(t.signal_spec(), "16-bit \u{b7} 44.1 kHz \u{b7} FLAC");
    assert_eq!(t.format_spec(), "1:01 \u{b7} FLAC \u{b7} 44.1 kHz \u{b7} 16-bit");
    assert_eq!(t.duration(), Some(Span::from_millis(61_000)));
    t.start_ms = Some(1000);
    assert_eq!(t.cue_range(), Some((Span::from_millis(1000), Span::from_millis(62_000))));
}

fn album(name: &str, artist: Option<&str>) -> Album {
    Album {
        album: s(name),
        album_artist: artist.map(s),
        year: Some(1959),
        track_count: 1,
        total_ms: 61_000,
        art_hash: None,
    }
}

#[test]
fn albums_and_folders_describe_themselves() {
    assert_eq!(album("x", None).meta(), "1 track \u{b7} 1:01 \u{b7} 1959");
    let f = Folder { path: s("/m/b//"), track_count: 2, total_ms: 1000 };
    assert_eq!(f.name(), "b");
    assert_eq!(f.meta(), "2 tracks \u{b7} 0:01");
    assert_eq!(Folder { path: s("//"), track_count: 0, total_ms: 0 }.name(), "//");
    assert_eq!(Folder { path: s("C:\\a\\b"), track_count: 0, total_ms: 0 }.name(), "b");
    assert_eq!(ScanStats::default().total_seen(), 0);
    assert_eq!(Filter::default(), Filter::All);
    assert_eq!(Sort::default(), Sort::Title);
}

#[test]
fn browse_sort_orders() {
    assert_eq!(album_order(Sort::Year), "MAX(track.year) DESC, track.album COLLATE NOCASE");
    assert_eq!(
        album_order(Sort::Artist),
        "track.album_artist COLLATE NOCASE, track.album COLLATE NOCASE"
    );
    assert_eq!(album_order(Sort::Album), "track.album COLLATE NOCASE");
    assert_eq!(album_order(Sort::Title), "track.album COLLATE NOCASE");
    assert_eq!(track_order(Sort::Title), "track.title COLLATE NOCASE");
    assert_eq!(
        track_order(Sort::Artist),
        "track.artist COLLATE NOCASE, track.album COLLATE NOCASE, track.disc_no, track.track_no"
    );
    assert_eq!(
        track_order(Sort::Album),
        "track.album COLLATE NOCASE, track.disc_no, track.track_no"
    );
    assert_eq!(
        track_order(Sort::Year),
        "track.year DESC, track.album COLLATE NOCASE, track.disc_no, track.track_no"
    );
    assert_eq!(placeholders(3), "?,?,?");
    assert_eq!(placeholders(0), "");
    assert_eq!(limit_clause(Some(10)), " LIMIT 10");
    assert_eq!(limit_clause(None), "");
    assert_eq!(PARAM_CHUNK, 900);
}

#[test]
fn rows_come_back_in_the_order_asked_for() {
    let rows = vec![track(3, "/c"), track(1, "/a"), track(2, "/b")];
    let got = load_tracks_by_ids(&vec![2, 9, 3, 2], rows);
    let ids: Vec<i64> = got.iter().map(|t| t.id).collect();
    assert_eq!(ids, vec![2, 3]);
}

#[test]
fn rows_become_tracks() {
    let r = TrackRow {
        id: 4,
        path: s("/m/a.flac"),
        folder: s("/m"),
        title: Some(s("T")),
        artist: None,
        album_artist: None,
        album: None,
        composer: None,
        genre: None,
        track_no: Some(1),
        disc_no: None,
        year: Some(1999),
        duration_ms: Some(5),
        codec: None,
        sample_rate: Some(44_100),
        bits: Some(16),
        channels: Some(2),
        art_hash: None,
        source_path: None,
        start_ms: None,
        loved: true,
    };
    let t = row_to_track(r);
    assert_eq!((t.id, t.duration_ms, t.sample_rate), (4, Some(5), Some(44_100)));
    assert_eq!(t.source_path.as_deref(), Some("/m/a.flac"));
    assert!(t.loved);
}

#[test]
fn old_databases_are_brought_up_to_date() {
    assert_eq!(
        migrate(0),
        vec![
            Migration::Base,
            Migration::PlayHistory,
            Migration::SourceColumns,
            Migration::Loved,
            Migration::ArtistIndex,
            Migration::SetVersion,
        ]
    );
    assert_eq!(
        migrate(1)[0..2],
        [Migration::DropFts, Migration::PlayHistory]
    );
    assert_eq!(migrate(5), vec![Migration::ArtistIndex, Migration::SetVersion]);
    assert!(migrate(6).is_empty());
    assert!(migrate(7).is_empty());
}

#[test]
fn search_folds_accents_and_ranks() {
    let hays = vec![
        Hay { id: 10, text: s("So What Miles Davis") },
        Hay { id: 11, text: s("Für Alina Arvo Pärt") },
        Hay { id: 12, text: s("Spiegel im Spiegel Arvo Pärt") },
    ];
    let long = "a ".repeat(MAX_QUERY / 2);
    let one = vec![Hay { id: 5, text: long.clone() }];
    assert_eq!(match_topn(&one, &long, 1), vec![5]);
    let solid = vec![Hay { id: 6, text: "a".repeat(MAX_QUERY) }];
    assert_eq!(match_topn(&solid, &"a".repeat(MAX_QUERY), 1), vec![6]);
    assert_eq!(match_topn(&solid, &format!("^{}", "a".repeat(MAX_QUERY - 1)), 1), vec![6]);
    let ids = match_topn(&hays, "part", 20);
    assert_eq!(ids.len(), 2, "ascii 'part' fuzzy-matches Pärt");
    assert!(ids.contains(&11) && ids.contains(&12));
    assert_eq!(match_topn(&hays, "pärt", 20).len(), 2);
    assert_eq!(match_topn(&hays, "so what", 20), vec![10]);
    assert_eq!(match_topn(&hays, "arvo", 1).len(), 1);
    assert!(match_topn(&hays, "zzz", 20).is_empty());
    let same = hays_from(vec![s("abc"), s("abc"), s("abc")]);
    assert_eq!(match_topn(&same, "abc", 9), vec![0, 1, 2]);
}

#[test]
fn matches_are_cut_and_looked_up() {
    let scored = vec![(7i64, 90u32), (2, 40), (5, 40)];
    assert_eq!(best_ids(&scored, 2), vec![7, 2]);
    assert_eq!(best_ids(&scored, 9), vec![7, 2, 5]);
    assert_eq!(best_ids(&scored, 0), Vec::<i64>::new());
    let names = vec![10u32, 11, 12];
    assert_eq!(pick_items(&names, &vec![2, -1, 0, 3, 2]), vec![12, 10, 12]);
}

#[test]
fn a_filter_scopes_the_search() {
    let idx = SearchIndex::build(
        vec![Hay { id: 7, text: s("Für Alina") }],
        vec![album("Alina", Some("Arvo Pärt")), album("Kind of Blue", Some("Miles Davis"))],
        vec![Artist { name: s("Arvo Pärt"), album_count: 1, track_count: 1 }],
        vec![Folder { path: s("/music/alina"), track_count: 1, total_ms: 1 }],
    );
    let h = idx.query(" alina ", Filter::All, 20);
    assert!(matches!(&h.tracks, TrackHits::Ids(v) if v == &vec![7]));
    assert_eq!(h.albums.len(), 1);
    assert_eq!(h.albums[0].album, "Alina");
    assert_eq!(h.folders.len(), 1);
    let h = idx.query("part", Filter::Albums, 20);
    assert!(matches!(h.tracks, TrackHits::Nothing));
    assert!(h.artists.is_empty() && h.folders.is_empty());
    assert_eq!(h.albums.len(), 1, "an album is found by its artist");
    let h = idx.query("", Filter::Tracks, 10);
    assert!(matches!(h.tracks, TrackHits::ByTitle(10)));
    assert!(h.albums.is_empty());
    let h = idx.query("", Filter::All, 1);
    assert_eq!((h.albums.len(), h.artists.len(), h.folders.len()), (1, 1, 1));
    assert_eq!(h.albums[0].album, "Alina");
}

#[test]
fn library_errors_reach_the_player() {
    assert_eq!(LibError::Db(s("x")).message(), "database error: x");
    assert_eq!(LibError::Io(s("x")).message(), "io error: x");
    assert_eq!(LibError::Tag(s("x")).message(), "tag error: x");
    assert_eq!(LibError::Watch(s("x")).message(), "watch error: x");
    match to_core_err(LibError::Other(s("x"))) {
        Error::Unsupported(t) => assert_eq!(t, "library: x"),
        _ => panic!("wrong kind"),
    }
}

#[test]
fn lines_split_into_a_word_and_the_trimmed_rest() {
    let split = |line: &str| {
        let chars: Vec<char> = line.chars().collect();
        let (word, rest) = split_first(&chars);
        (word.iter().collect::<String>(), rest.iter().collect::<String>())
    };
    assert_eq!(split("  TITLE  So What  "), (s("TITLE"), s("So What")));
    assert_eq!(split("REM DATE 1959\t"), (s("REM"), s("DATE 1959")));
    assert_eq!(split("INDEX "), (s("INDEX"), s("")));
    assert_eq!(split("   "), (s(""), s("")));
}

#[test]
fn queries_that_the_matcher_cannot_take_are_told_apart() {
    let hay = |text: &str| vec![Hay { id: 1, text: s(text) }];
    let long_s = hay("\u{17f} s \u{e4} x");
    assert!(!can_match(&long_s, "s\u{e4}"));
    assert!(!can_match(&long_s, "S\u{c4}"));
    assert!(!can_match(&long_s, "\u{e4} s"));
    // Without a mark in the query, or without its letter, nothing clashes.
    assert!(can_match(&long_s, "sx"));
    assert_eq!(match_topn(&long_s, "sx", 5), vec![1]);
    assert!(can_match(&long_s, "\u{e4}x"));
    assert_eq!(match_topn(&long_s, "\u{e4}x", 5), vec![1]);
    // The final sigma: a clash only for a query that also has a marked letter.
    let greek = hay("\u{3c3}\u{3bf}\u{3c6}\u{3cc}\u{3c2} x");
    assert!(can_match(&greek, "\u{3c3}\u{3bf}\u{3c6}"));
    assert_eq!(match_topn(&greek, "\u{3c3}\u{3bf}\u{3c6}", 5), vec![1]);
    assert!(!can_match(&greek, "\u{3a3}\u{fc}"));
    assert!(can_match(&greek, "f\u{fc}r"));
    assert!(match_topn(&greek, "f\u{fc}r", 5).is_empty());
    // Each variant against the letter that stands for it.
    for (variant, letter) in [
        (0xb5u32, 0x3bcu32), (0x17f, 0x73), (0x345, 0x3b9), (0x3c2, 0x3c3), (0x3d0, 0x3b2),
        (0x3d1, 0x3b8), (0x3d5, 0x3c6), (0x3d6, 0x3c0), (0x3f0, 0x3ba), (0x3f1, 0x3c1),
        (0x3f5, 0x3b5), (0x13f8, 0x13f0), (0x13fd, 0x13f5), (0x1c80, 0x432), (0x1c81, 0x434),
        (0x1c82, 0x43e), (0x1c83, 0x441), (0x1c84, 0x442), (0x1c85, 0x442), (0x1c86, 0x44a),
        (0x1c87, 0x463), (0x1c88, 0xa64b), (0x1e9b, 0x1e61), (0x1fbe, 0x3b9), (0xab70, 0x13a0),
        (0xabbf, 0x13ef),
    ] {
        let v = char::from_u32(variant).unwrap();
        let l = char::from_u32(letter).unwrap();
        assert_eq!(nucleo::chars::to_lower_case(v), l);
        assert!(v.is_lowercase());
        assert!(!can_match(&hay(&format!("{v}x")), &format!("\u{e4}{l}")));
        assert!(!can_match(&hay(&format!("{v}x")), &format!("\u{e4}{v}")));
        assert!(can_match(&hay(&format!("{l}x")), &format!("\u{e4}{l}")));
    }
    // No other small letter changes when its case is folded, and no letter outside the marked
    // ones turns into one that loses a mark.
    for c in '\u{80}'..=char::MAX {
        let l = nucleo::chars::to_lower_case(c);
        if c.is_lowercase() && l != c {
            assert!(!can_match(&hay(&s(&c.to_string())), &format!("\u{e4}{l}")), "{c:?}");
        }
        if nucleo::chars::normalize(l) != l {
            assert!(!can_match(&long_s, &format!("s{c}")), "{c:?}");
        }
        if l != c && nucleo::chars::is_upper_case(c) && !c.is_lowercase() {
            let variants = hay("\u{17f}\u{3d1}\u{3c2}\u{1c84}\u{ab70}\u{13f8}\u{1e9b}");
            let a = can_match(&variants, &format!("\u{e4}{c}"));
            assert_eq!(a, can_match(&variants, &format!("\u{e4}{l}")), "{c:?}");
        }
    }
    assert!(searchable("") && searchable("\u{e4}"));
    assert!(!can_match(&hay("a"), &"a".repeat(MAX_QUERY + 1)));
}

#[test]
fn an_index_tells_whether_it_can_be_searched() {
    let artist = |name: &str| Artist { name: s(name), album_count: 1, track_count: 1 };
    let idx = SearchIndex::build(
        vec![Hay { id: 4, text: s("so what") }],
        Vec::new(),
        vec![artist("\u{17f}ch\u{e4}fer")],
        Vec::new(),
    );
    assert!(idx.can_query("  ", Filter::All));
    assert!(idx.can_query("so", Filter::All));
    assert!(idx.can_query("s\u{e4}", Filter::Tracks));
    assert!(!idx.can_query(" s\u{e4} ", Filter::Artists));
    assert!(!idx.can_query("s\u{e4}", Filter::All));
    assert!(!idx.can_query(&"a".repeat(MAX_QUERY + 1), Filter::All));
}
