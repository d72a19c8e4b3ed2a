//! What the user interface says, and the small choices behind it.
use crate::devices::DeviceInfo;
use crate::engine::DEFAULT_PERIOD;
use crate::format::StreamSpec;
use crate::model::{dot, fmt_khz, khz_text, Album, Filter, ScanStats, Sort, Track};
use crate::text::{
    ascii_upper, chars_of, decimal, lower, lower_of, padded, push_decimal, push_padded,
    push_signed, signed_decimal, spells, to_upper,
};
use vstd::prelude::*;
use vstd::string::*;

verus! {

/// Seconds as `m:ss`.
pub fn mmss(secs: u64) -> (s: String)
    ensures
        s@ == decimal(secs as nat / 60) + ":"@ + padded(secs as nat % 60, 2),
{
    let mut s = String::new();
    push_decimal(&mut s, secs / 60);
    s.append(":");
    push_padded(&mut s, secs % 60, 2);
    assert(s@ =~= decimal(secs as nat / 60) + ":"@ + padded(secs as nat % 60, 2));
    s
}

/// A number and what it counts.
pub open spec fn counted(n: nat, one: Seq<char>) -> Seq<char> {
    decimal(n) + one + (if n == 1 {
        ""@
    } else {
        "s"@
    })
}

fn push_counted(s: &mut String, n: u64, one: &str)
    ensures
        final(s)@ == old(s)@ + counted(n as nat, one@),
{
    push_decimal(s, n);
    s.append(one);
    if n == 1 {
        s.append("");
    } else {
        s.append("s");
    }
    assert(s@ =~= old(s)@ + counted(n as nat, one@));
}

/// How much there is of an artist.
pub fn artist_meta(albums: u64, tracks: u64) -> (s: String)
    ensures
        s@ == counted(albums as nat, " album"@) + dot() + counted(tracks as nat, " track"@),
{
    let mut s = String::new();
    push_counted(&mut s, albums, " album");
    s.append(" \u{b7} ");
    push_counted(&mut s, tracks, " track");
    assert(s@ =~= counted(albums as nat, " album"@) + dot() + counted(tracks as nat, " track"@));
    s
}

pub fn added_to_queue(n: u64) -> (s: String)
    ensures
        s@ == "Added "@ + counted(n as nat, " track"@) + " to queue"@,
{
    let mut s = String::from_str("Added ");
    push_counted(&mut s, n, " track");
    s.append(" to queue");
    s
}

pub fn saved_tracks(n: u64) -> (s: String)
    ensures
        s@ == "Saved "@ + counted(n as nat, " track"@),
{
    let mut s = String::from_str("Saved ");
    push_counted(&mut s, n, " track");
    s
}

pub fn up_next_title(n: u64) -> (s: String)
    ensures
        s@ == (if n == 0 {
            "Up Next"@
        } else {
            "Up Next \u{b7} "@ + decimal(n as nat)
        }),
{
    if n == 0 {
        String::from_str("Up Next")
    } else {
        let mut s = String::from_str("Up Next \u{b7} ");
        push_decimal(&mut s, n);
        s
    }
}

/// What the device is fed, in words.
pub open spec fn chip_text(spec: StreamSpec, label: Seq<char>) -> Seq<char> {
    if spec.is_dop {
        "DSD"@ + decimal((spec.rate * 16 / 44_100) as nat) + " \u{b7} DoP \u{b7} "@ + khz_text(
            spec.rate as nat,
        ) + dot() + label
    } else {
        decimal(spec.source_bits as nat) + "-bit \u{b7} "@ + khz_text(spec.rate as nat) + dot()
            + label
    }
}

pub fn format_chip(spec: StreamSpec) -> (s: String)
    ensures
        s@ == chip_text(
            spec,
            match spec.fmt {
                crate::format::AlsaFmt::S16 => "S16_LE"@,
                crate::format::AlsaFmt::S24_3 => "S24_3LE"@,
                crate::format::AlsaFmt::S32 => "S32_LE"@,
            },
        ),
{
    let khz = fmt_khz(spec.rate);
    let label = spec.fmt.label();
    let mut s = String::new();
    if spec.is_dop {
        s.append("DSD");
        push_decimal(&mut s, spec.rate as u64 * 16 / 44_100);
        s.append(" \u{b7} DoP \u{b7} ");
    } else {
        push_decimal(&mut s, spec.source_bits as u64);
        s.append("-bit \u{b7} ");
    }
    s.append(khz.as_str());
    s.append(" \u{b7} ");
    s.append(label);
    assert(s@ =~= chip_text(spec, label@));
    s
}

/// What a scan did, in words.
pub fn scan_summary(st: &ScanStats) -> (s: String)
    requires
        st.added + st.updated + st.moved + st.unchanged <= u64::MAX,
    ensures
        s@ == "Indexed \u{b7} +"@ + decimal(st.added as nat) + " ~"@ + decimal(
            (st.updated + st.moved) as nat,
        ) + " \u{2212}"@ + decimal(st.removed as nat) + " ("@ + decimal(
            (st.added + st.updated + st.moved + st.unchanged) as nat,
        ) + " tracks)"@,
{
    let mut s = String::from_str("Indexed \u{b7} +");
    push_decimal(&mut s, st.added);
    s.append(" ~");
    push_decimal(&mut s, st.updated + st.moved);
    s.append(" \u{2212}");
    push_decimal(&mut s, st.removed);
    s.append(" (");
    push_decimal(&mut s, st.total_seen());
    s.append(" tracks)");
    s
}

/// The label of the sort button.
pub fn sort_label_text(s: Sort) -> (r: &'static str)
    ensures
        r@ == (match s {
            Sort::Title => "Title"@,
            Sort::Artist => "Artist"@,
            Sort::Year => "Year \u{2014} newest"@,
            Sort::Album => "Album"@,
        }),
{
    match s {
        Sort::Title => "Title",
        Sort::Artist => "Artist",
        Sort::Year => "Year \u{2014} newest",
        Sort::Album => "Album",
    }
}

/// The edge of an album's cover: a third of the window within bounds, in steps of eight.
pub open spec fn cover_px(window: int) -> int {
    let inner = if window - 104 < 120 {
        120
    } else {
        window - 104
    };
    let third = inner / 3;
    let raw = if third < 80 {
        80
    } else if third > 240 {
        240
    } else {
        third
    };
    raw / 8 * 8
}

pub fn album_cover_px(window_w: i32) -> (px: i32)
    ensures
        px == cover_px(window_w as int),
{
    let inner: i64 = if (window_w as i64) - 104 < 120 {
        120
    } else {
        window_w as i64 - 104
    };
    let third: i64 = inner / 3;
    let raw: i64 = if third < 80 {
        80
    } else if third > 240 {
        240
    } else {
        third
    };
    (raw / 8 * 8) as i32
}

/// Covers always come in one of a few sizes, so that few are decoded twice.
pub proof fn law_cover_sizes_are_few(window: int)
    ensures
        80 <= cover_px(window) <= 240,
        cover_px(window) % 8 == 0,
{
}

/// The letter that an album is listed under; none by year.
pub open spec fn az_letter(al: Album, sort: Sort) -> Option<char> {
    let s = match sort {
        Sort::Artist => match al.album_artist {
            Some(a) => a@,
            None => Seq::empty(),
        },
        _ => al.album@,
    };
    if sort == Sort::Year || s.len() == 0 {
        None
    } else {
        Some(ascii_upper(s[0]))
    }
}

/// The letter of the last entry of an index.
pub open spec fn az_last(idx: Seq<(char, usize)>) -> char {
    if idx.len() == 0 {
        '\0'
    } else {
        idx.last().0
    }
}

/// The index of the first `n` albums: an entry wherever the letter changes.
pub open spec fn az(albums: Seq<Album>, sort: Sort, n: nat) -> Seq<(char, usize)>
    decreases n,
{
    if n == 0 {
        Seq::empty()
    } else {
        let rest = az(albums, sort, (n - 1) as nat);
        match az_letter(albums[n - 1], sort) {
            Some(c) if c != az_last(rest) => rest.push((c, (n - 1) as usize)),
            _ => rest,
        }
    }
}

fn letter_of(al: &Album, sort: Sort) -> (r: Option<char>)
    ensures
        r == az_letter(*al, sort),
{
    match sort {
        Sort::Year => None,
        Sort::Artist => match &al.album_artist {
            Some(a) => first_upper(a.as_str()),
            None => None,
        },
        Sort::Title => first_upper(al.album.as_str()),
        Sort::Album => first_upper(al.album.as_str()),
    }
}

fn first_upper(s: &str) -> (r: Option<char>)
    ensures
        r == (if s@.len() == 0 {
            None
        } else {
            Some(ascii_upper(s@[0]))
        }),
{
    let c = chars_of(s);
    if c.len() == 0 {
        None
    } else {
        Some(to_upper(c[0]))
    }
}

/// The jump index beside the albums: a letter and the first album under it.
pub fn build_az_index(albums: &Vec<Album>, sort: Sort) -> (idx: Vec<(char, usize)>)
    ensures
        idx@ == az(albums@, sort, albums@.len()),
{
    let mut idx: Vec<(char, usize)> = Vec::new();
    let mut last: char = '\0';
    for i in 0..albums.len()
        invariant
            idx@ == az(albums@, sort, i as nat),
            last == az_last(idx@),
    {
        if let Some(c) = letter_of(&albums[i], sort) {
            if c != last {
                idx.push((c, i));
                last = c;
            }
        }
    }
    idx
}

/// The filter that a word on the command line stands for.
pub fn parse_filter(s: &str) -> (f: Filter)
    ensures
        f == (if lower(s@) == "tracks"@ {
            Filter::Tracks
        } else if lower(s@) == "albums"@ {
            Filter::Albums
        } else if lower(s@) == "artists"@ {
            Filter::Artists
        } else {
            Filter::All
        }),
{
    let c = chars_of(s);
    let l = lower_of(c.as_slice());
    if spells(l.as_slice(), "tracks") {
        Filter::Tracks
    } else if spells(l.as_slice(), "albums") {
        Filter::Albums
    } else if spells(l.as_slice(), "artists") {
        Filter::Artists
    } else {
        Filter::All
    }
}

/// How light or dark the window is to be.
#[derive(Clone, Copy, Debug, PartialEq, Eq, Structural)]
pub enum Scheme {
    ForceLight,
    ForceDark,
    SystemDefault,
    PreferDark,
}

/// The scheme for a saved theme; dark where none was saved.
pub fn apply_theme(theme: Option<&str>) -> (s: Scheme)
    ensures
        s == (match theme {
            None => Scheme::PreferDark,
            Some(t) => if t@ == "light"@ {
                Scheme::ForceLight
            } else if t@ == "dark"@ {
                Scheme::ForceDark
            } else {
                Scheme::SystemDefault
            },
        }),
{
    match theme {
        None => Scheme::PreferDark,
        Some(t) => {
            let c = chars_of(t);
            if spells(c.as_slice(), "light") {
                Scheme::ForceLight
            } else if spells(c.as_slice(), "dark") {
                Scheme::ForceDark
            } else {
                Scheme::SystemDefault
            }
        },
    }
}

/// The device to play on: the saved one, else the one from the environment, else the one
/// that was found, else the first card.
pub fn pick_device(saved: Option<String>, env: Option<String>, found: Option<String>) -> (d: String)
    ensures
        d@ == (match saved {
            Some(s) => s@,
            None => match env {
                Some(e) => e@,
                None => match found {
                    Some(f) => f@,
                    None => "hw:0,0"@,
                },
            },
        }),
{
    match saved {
        Some(s) => s,
        None => match env {
            Some(e) => e,
            None => match found {
                Some(f) => f,
                None => String::from_str("hw:0,0"),
            },
        },
    }
}

/// The first album of that name by that artist.
pub fn find_album(albums: &Vec<Album>, album: &str, album_artist: Option<&str>) -> (r: Option<usize>)
    ensures
        ({
            let aa = match album_artist {
                Some(a) => Some(a@),
                None => None,
            };
            match r {
                Some(i) => {
                    &&& i < albums@.len()
                    &&& albums@[i as int].is(album@, aa)
                    &&& forall|j: int| 0 <= j < i ==> !(#[trigger] albums@[j]).is(album@, aa)
                },
                None => forall|j: int|
                    0 <= j < albums@.len() ==> !(#[trigger] albums@[j]).is(album@, aa),
            }
        }),
{
    let name = chars_of(album);
    let ghost aa = match album_artist {
        Some(a) => Some(a@),
        None => None,
    };
    for i in 0..albums.len()
        invariant
            name@ == album@,
            aa == (match album_artist {
                Some(a) => Some(a@),
                None => None,
            }),
            forall|j: int| 0 <= j < i ==> !(#[trigger] albums@[j]).is(album@, aa),
    {
        let al = &albums[i];
        let same = match (&al.album_artist, album_artist) {
            (Some(a), Some(b)) => {
                let c = chars_of(a.as_str());
                spells(c.as_slice(), b)
            },
            (None, None) => true,
            _ => false,
        };
        if same && spells(name.as_slice(), al.album.as_str()) {
            return Some(i);
        }
    }
    None
}

/// How many tracks some albums have.
pub open spec fn tracks_in(albums: Seq<Album>) -> nat
    decreases albums.len(),
{
    if albums.len() == 0 {
        0
    } else {
        tracks_in(albums.drop_last()) + albums.last().track_count as nat
    }
}

proof fn lemma_tracks_in_grows(albums: Seq<Album>, n: int)
    requires
        0 <= n <= albums.len(),
    ensures
        tracks_in(albums.take(n)) <= tracks_in(albums),
    decreases albums.len() - n,
{
    if n == albums.len() {
        assert(albums.take(n) =~= albums);
    } else {
        lemma_tracks_in_grows(albums, n + 1);
        assert(albums.take(n + 1).drop_last() =~= albums.take(n));
    }
}

pub fn count_tracks(albums: &Vec<Album>) -> (n: u32)
    requires
        tracks_in(albums@) <= u32::MAX,
    ensures
        n == tracks_in(albums@),
{
    let mut n: u32 = 0;
    for i in 0..albums.len()
        invariant
            tracks_in(albums@) <= u32::MAX,
            n == tracks_in(albums@.take(i as int)),
    {
        proof {
            lemma_tracks_in_grows(albums@, i + 1);
            assert(albums@.take(i + 1).drop_last() =~= albums@.take(i as int));
        }
        n = n + albums[i].track_count;
    }
    assert(albums@.take(albums@.len() as int) =~= albums@);
    n
}

/// A text that is not empty.
pub open spec fn not_empty(s: Option<String>) -> Option<String> {
    match s {
        Some(t) if t@.len() > 0 => Some(t),
        _ => None,
    }
}

fn keep_text(s: &Option<String>) -> (r: Option<String>)
    ensures
        r == not_empty(*s),
{
    match s {
        Some(t) => if chars_of(t.as_str()).len() > 0 {
            Some(t.clone())
        } else {
            None
        },
        None => None,
    }
}

/// The artist that a track leads to: the album's, else its own.
pub fn artist_of(t: &Track) -> (r: Option<String>)
    ensures
        r == not_empty(
            match t.album_artist {
                Some(a) => Some(a),
                None => t.artist,
            },
        ),
{
    match &t.album_artist {
        Some(_) => keep_text(&t.album_artist),
        None => keep_text(&t.artist),
    }
}

/// The album that a track leads to.
pub fn album_of(t: &Track) -> (r: Option<String>)
    ensures
        r == not_empty(t.album),
{
    keep_text(&t.album)
}

/// A track's title in the list of its album.
pub fn numbered_title(t: &Track) -> (s: String)
    ensures
        s@ == (match t.track_no {
            Some(n) => decimal(n as nat) + ".  "@,
            None => Seq::empty(),
        }) + t.title_text(),
{
    let mut s = String::new();
    if let Some(n) = t.track_no {
        push_decimal(&mut s, n as u64);
        s.append(".  ");
    }
    let title = t.display_title();
    s.append(title.as_str());
    assert(s@ =~= (match t.track_no {
        Some(n) => decimal(n as nat) + ".  "@,
        None => Seq::empty(),
    }) + t.title_text());
    s
}

/// The width to lay out for: the window's own, or what it asks for before it has one, but no
/// more than the screen's.
pub fn window_width(width: i32, default_width: i32, monitor: Option<i32>) -> (w: i32)
    ensures
        ({
            let own = if width > 0 {
                width
            } else {
                default_width
            };
            w == (match monitor {
                Some(m) if 0 < m < own => m,
                _ => own,
            })
        }),
{
    let own: i32 = if width > 0 {
        width
    } else {
        default_width
    };
    match monitor {
        Some(m) => if 0 < m && m < own {
            m
        } else {
            own
        },
        None => own,
    }
}

/// The buffer sizes on offer, in periods.
pub open spec fn periods_at(i: int) -> i64 {
    if i == 0 {
        4
    } else if i == 1 {
        8
    } else if i == 2 {
        16
    } else {
        32
    }
}

pub fn buffer_periods(selected: u32) -> (p: i64)
    requires
        selected < 4,
    ensures
        p == periods_at(selected as int),
{
    if selected == 0 {
        4
    } else if selected == 1 {
        8
    } else if selected == 2 {
        16
    } else {
        32
    }
}

/// The entry for a buffer size; the second for one that is not on offer.
pub fn buffer_index(periods: i64) -> (i: u32)
    ensures
        i < 4,
        (exists|k: int| 0 <= k < 4 && #[trigger] periods_at(k) == periods) ==> periods_at(i as int)
            == periods,
        !(exists|k: int| 0 <= k < 4 && #[trigger] periods_at(k) == periods) ==> i == 1,
{
    assert(periods_at(0) == 4 && periods_at(1) == 8 && periods_at(2) == 16 && periods_at(3) == 32);
    if periods == 4 {
        0
    } else if periods == 8 {
        1
    } else if periods == 16 {
        2
    } else if periods == 32 {
        3
    } else {
        1
    }
}

/// Says how large the output buffer now is.
pub fn buffer_text(periods: i64) -> (s: String)
    requires
        i64::MIN <= periods * DEFAULT_PERIOD <= i64::MAX,
    ensures
        s@ == "Output buffer \u{2192} "@ + signed_decimal(periods * DEFAULT_PERIOD) + " frames"@,
{
    let mut s = String::from_str("Output buffer \u{2192} ");
    push_signed(&mut s, periods * DEFAULT_PERIOD);
    s.append(" frames");
    s
}

/// The entry for a saved theme.
pub open spec fn theme_entry(theme: Option<Seq<char>>) -> u32 {
    match theme {
        Some(t) => if t == "light"@ {
            1
        } else if t == "dark"@ {
            2
        } else {
            0
        },
        None => 0,
    }
}

pub fn theme_index(theme: Option<&str>) -> (i: u32)
    ensures
        i == theme_entry(
            match theme {
                Some(t) => Some(t@),
                None => None,
            },
        ),
{
    match theme {
        Some(t) => {
            let c = chars_of(t);
            if spells(c.as_slice(), "light") {
                1
            } else if spells(c.as_slice(), "dark") {
                2
            } else {
                0
            }
        },
        None => 0,
    }
}

/// The theme of an entry.
pub open spec fn theme_text(selected: u32) -> Seq<char> {
    if selected == 1 {
        "light"@
    } else if selected == 2 {
        "dark"@
    } else {
        "system"@
    }
}

pub fn theme_name(selected: u32) -> (s: &'static str)
    ensures
        s@ == theme_text(selected),
{
    if selected == 1 {
        "light"
    } else if selected == 2 {
        "dark"
    } else {
        "system"
    }
}

/// A chosen theme is shown as chosen the next time.
pub proof fn law_theme_comes_back(selected: u32)
    requires
        selected < 3,
    ensures
        theme_entry(Some(theme_text(selected))) == selected,
{
    reveal_strlit("light");
    reveal_strlit("dark");
    reveal_strlit("system");
    assert("light"@.len() == 5 && "dark"@.len() == 4 && "system"@.len() == 6);
}

/// The entry of the device in use: the last one of its name, else the first.
pub fn device_index(devices: &Vec<DeviceInfo>, current: &str) -> (sel: u32)
    requires
        devices@.len() <= u32::MAX,
    ensures
        match last_with_id(devices@, current@) {
            Some(i) => sel == i,
            None => sel == 0,
        },
{
    let cur = chars_of(current);
    let mut sel: u32 = 0;
    for i in 0..devices.len()
        invariant
            devices@.len() <= u32::MAX,
            cur@ == current@,
            match last_with_id(devices@.take(i as int), current@) {
                Some(k) => sel == k,
                None => sel == 0,
            },
    {
        assert(devices@.take(i + 1).drop_last() =~= devices@.take(i as int));
        if spells(cur.as_slice(), devices[i].id.as_str()) {
            sel = i as u32;
        }
    }
    assert(devices@.take(devices@.len() as int) =~= devices@);
    sel
}

/// The last device of a name.
pub open spec fn last_with_id(devices: Seq<DeviceInfo>, id: Seq<char>) -> Option<int>
    decreases devices.len(),
{
    if devices.len() == 0 {
        None
    } else if devices.last().id@ == id {
        Some(devices.len() - 1)
    } else {
        last_with_id(devices.drop_last(), id)
    }
}

/// A volume key of the machine.
#[derive(Clone, Copy, Debug, PartialEq, Eq, Structural)]
pub enum HwKey {
    VolumeDown,
    VolumeUp,
}

/// The code of the key that lowers the volume.
pub const KEY_VOLUMEDOWN: u16 = 114;

/// The code of the key that raises the volume.
pub const KEY_VOLUMEUP: u16 = 115;

/// The volume key that was pressed. Releases and repeats count for nothing.
pub fn hw_key(code: u16, value: i32) -> (k: Option<HwKey>)
    ensures
        k == (if value == 1 && code == KEY_VOLUMEDOWN {
            Some(HwKey::VolumeDown)
        } else if value == 1 && code == KEY_VOLUMEUP {
            Some(HwKey::VolumeUp)
        } else {
            None
        }),
{
    if value != 1 {
        None
    } else if code == KEY_VOLUMEDOWN {
        Some(HwKey::VolumeDown)
    } else if code == KEY_VOLUMEUP {
        Some(HwKey::VolumeUp)
    } else {
        None
    }
}

/// Seconds are shown as minutes and seconds, the seconds with two digits.
pub proof fn law_seconds_are_shown(secs: u64, m: nat, sec: nat, s: String)
    requires
        call_ensures(mmss, (secs,), s),
        m * 60 + sec == secs,
        sec < 60,
    ensures
        s@ == decimal(m) + ":"@ + seq![(48 + sec / 10) as char, (48 + sec % 10) as char],
{
    assert(secs as nat / 60 == m && secs as nat % 60 == sec);
    crate::text::lemma_two_digits(sec);
}

/// Counts stand before what they count, which is in the plural unless there is just one.
pub proof fn law_counts_have_a_plural(
    a: u64,
    n: u64,
    artist: String,
    added: String,
    saved: String,
    next: String,
)
    requires
        call_ensures(artist_meta, (a, n), artist),
        call_ensures(added_to_queue, (n,), added),
        call_ensures(saved_tracks, (n,), saved),
        call_ensures(up_next_title, (n,), next),
    ensures
        ({
            let albums = if a == 1 {
                decimal(1) + " album"@
            } else {
                decimal(a as nat) + " album"@ + "s"@
            };
            let tracks = if n == 1 {
                decimal(1) + " track"@
            } else {
                decimal(n as nat) + " track"@ + "s"@
            };
            &&& artist@ == albums + " \u{b7} "@ + tracks
            &&& added@ == "Added "@ + tracks + " to queue"@
            &&& saved@ == "Saved "@ + tracks
            &&& n == 0 ==> next@ == "Up Next"@
            &&& n > 0 ==> next@ == "Up Next \u{b7} "@ + decimal(n as nat)
        }),
{
    reveal_strlit("");
    let x = decimal(a as nat) + " album"@;
    let y = decimal(n as nat) + " track"@;
    assert(x + ""@ =~= x);
    assert(y + ""@ =~= y);
}

/// What the device is fed is described by resolution, rate and format; DoP as DSD, by how many
/// times the rate of a compact disc its bits come.
pub proof fn law_chip_describes_the_stream(spec: StreamSpec, s: String, khz: String, label: &str)
    requires
        call_ensures(format_chip, (spec,), s),
        call_ensures(crate::model::fmt_khz, (spec.rate,), khz),
        call_ensures(crate::format::AlsaFmt::label, (spec.fmt,), label),
    ensures
        !spec.is_dop ==> s@ == decimal(spec.source_bits as nat) + "-bit \u{b7} "@ + khz@
            + " \u{b7} "@ + label@,
        spec.is_dop ==> s@ == "DSD"@ + decimal((spec.rate * 16 / 44_100) as nat)
            + " \u{b7} DoP \u{b7} "@ + khz@ + " \u{b7} "@ + label@,
{
}

/// A scan is summed up by what it added, what it updated or moved, what it removed, and all it
/// saw.
pub proof fn law_scan_is_summed_up(st: ScanStats, s: String, n: u64)
    requires
        call_ensures(scan_summary, (&st,), s),
        call_ensures(ScanStats::total_seen, (&st,), n),
        st.added + st.updated + st.moved + st.unchanged <= u64::MAX,
    ensures
        s@ == "Indexed \u{b7} +"@ + decimal(st.added as nat) + " ~"@ + decimal(
            (st.updated + st.moved) as nat,
        ) + " \u{2212}"@ + decimal(st.removed as nat) + " ("@ + decimal(n as nat) + " tracks)"@,
{
}

/// The sort button says how albums are sorted.
pub proof fn law_sort_button_says_how(s: Sort, r: &str)
    requires
        call_ensures(sort_label_text, (s,), r),
    ensures
        s == Sort::Title ==> r@ == "Title"@,
        s == Sort::Artist ==> r@ == "Artist"@,
        s == Sort::Album ==> r@ == "Album"@,
        s == Sort::Year ==> r@ == "Year \u{2014} newest"@,
{
}

/// A cover takes a third of the window less its margins, down to a step of eight, but never less
/// than eighty nor more than two hundred and forty.
pub proof fn law_cover_takes_a_third(window: i32, px: i32)
    requires
        call_ensures(album_cover_px, (window,), px),
    ensures
        80 <= px <= 240,
        px % 8 == 0,
        344 <= window <= 824 ==> px * 3 <= window - 104 < (px + 8) * 3,
        window < 344 ==> px == 80,
        window > 824 ==> px == 240,
{
}

/// The letter that an album is sorted under, capitals and small letters alike: of its artist or
/// of its name.
pub open spec fn sort_letter(al: Album, sort: Sort) -> Option<char> {
    let s = if sort == Sort::Artist {
        match al.album_artist {
            Some(a) => a@,
            None => Seq::empty(),
        }
    } else {
        al.album@
    };
    if sort == Sort::Year || s.len() == 0 {
        None
    } else if 'a' <= s[0] <= 'z' {
        Some((s[0] as u32 - 32) as char)
    } else {
        Some(s[0])
    }
}

proof fn lemma_az(albums: Seq<Album>, sort: Sort, n: nat)
    requires
        n <= albums.len() <= usize::MAX,
    ensures
        forall|k: int|
            0 <= k < az(albums, sort, n).len() ==> (#[trigger] az(albums, sort, n)[k]).1 < n
                && sort_letter(albums[az(albums, sort, n)[k].1 as int], sort) == Some(
                az(albums, sort, n)[k].0,
            ),
        forall|j: int, k: int|
            0 <= j < k < az(albums, sort, n).len() ==> (#[trigger] az(albums, sort, n)[j]).1 < (
            #[trigger] az(albums, sort, n)[k]).1,
    decreases n,
{
    if n > 0 {
        let m = (n - 1) as nat;
        lemma_az(albums, sort, m);
        let rest = az(albums, sort, m);
        let all = az(albums, sort, n);
        assert(sort_letter(albums[m as int], sort) == az_letter(albums[m as int], sort));
        assert forall|k: int| 0 <= k < all.len() implies (#[trigger] all[k]).1 < n && sort_letter(
            albums[all[k].1 as int],
            sort,
        ) == Some(all[k].0) by {
            if k < rest.len() {
                assert(all[k] == rest[k]);
            }
        }
        assert forall|j: int, k: int| 0 <= j < k < all.len() implies (#[trigger] all[j]).1 < (
        #[trigger] all[k]).1 by {
            assert(all[j] == rest[j]);
            if k < rest.len() {
                assert(all[k] == rest[k]);
            }
        }
    }
}

proof fn lemma_az_covers(albums: Seq<Album>, sort: Sort, n: nat, i: int)
    requires
        0 <= i < n <= albums.len() <= usize::MAX,
        sort_letter(albums[i], sort) is Some,
        sort_letter(albums[i], sort) != Some('\0'),
    ensures
        exists|k: int|
            0 <= k < az(albums, sort, n).len() && (#[trigger] az(albums, sort, n)[k]).1 <= i && az(
                albums,
                sort,
                n,
            )[k].0 == sort_letter(albums[i], sort)->0,
    decreases n,
{
    let m = (n - 1) as nat;
    let rest = az(albums, sort, m);
    let all = az(albums, sort, n);
    assert(sort_letter(albums[m as int], sort) == az_letter(albums[m as int], sort));
    if i < m {
        lemma_az_covers(albums, sort, m, i);
        let k = choose|k: int|
            0 <= k < rest.len() && (#[trigger] rest[k]).1 <= i && rest[k].0 == sort_letter(
                albums[i],
                sort,
            )->0;
        assert(all[k] == rest[k]);
    } else {
        let c = sort_letter(albums[i], sort)->0;
        if c != az_last(rest) {
            assert(all[rest.len() as int] == (c, m as usize));
        } else {
            lemma_az(albums, sort, m);
            assert(rest.len() > 0);
            let k = rest.len() - 1;
            assert(rest[k].1 < m);
            assert(all[k] == rest[k]);
        }
    }
}

/// The jump index leads to albums: an entry's letter is that of the album it leads to, entries
/// come in the order of the albums, and every album is listed at or behind an entry of its
/// letter. By year there is none.
pub proof fn law_jump_index_leads_to_letters(
    albums: Vec<Album>,
    sort: Sort,
    idx: Vec<(char, usize)>,
    k: int,
    i: int,
)
    requires
        call_ensures(build_az_index, (&albums, sort), idx),
        0 <= i < albums@.len() <= usize::MAX,
    ensures
        0 <= k < idx@.len() ==> idx@[k].1 < albums@.len() && sort_letter(
            albums@[idx@[k].1 as int],
            sort,
        ) == Some(idx@[k].0),
        0 <= k && k + 1 < idx@.len() ==> idx@[k].1 < idx@[k + 1].1,
        sort_letter(albums@[i], sort) is Some && sort_letter(albums@[i], sort) != Some('\0')
            ==> exists|m: int|
            0 <= m < idx@.len() && (#[trigger] idx@[m]).1 <= i && idx@[m].0 == sort_letter(
                albums@[i],
                sort,
            )->0,
        sort == Sort::Year ==> idx@.len() == 0,
{
    lemma_az(albums@, sort, albums@.len());
    if sort_letter(albums@[i], sort) is Some && sort_letter(albums@[i], sort) != Some('\0') {
        lemma_az_covers(albums@, sort, albums@.len(), i);
    }
    if sort == Sort::Year {
        lemma_az_year(albums@, albums@.len());
    }
}

proof fn lemma_az_year(albums: Seq<Album>, n: nat)
    ensures
        az(albums, Sort::Year, n).len() == 0,
    decreases n,
{
    if n > 0 {
        lemma_az_year(albums, (n - 1) as nat);
    }
}

/// The words on the command line are known in any case; any other word means everything.
pub proof fn law_filter_words(s: &str, f: Filter)
    requires
        call_ensures(parse_filter, (s,), f),
    ensures
        f == Filter::Tracks <==> lower(s@) == "tracks"@,
        f == Filter::Albums <==> lower(s@) == "albums"@,
        f == Filter::Artists <==> lower(s@) == "artists"@,
        f == Filter::All || f == Filter::Tracks || f == Filter::Albums || f == Filter::Artists,
{
    reveal_strlit("tracks");
    reveal_strlit("albums");
    reveal_strlit("artists");
    assert("tracks"@.len() == 6 && "tracks"@[0] == 't');
    assert("albums"@.len() == 6 && "albums"@[0] == 'a');
    assert("artists"@.len() == 7);
}

/// A theme that is chosen from the list is saved under its name, forces its colours, and is shown
/// as chosen again; without a saved theme dark is preferred.
pub proof fn law_theme_is_applied(
    selected: u32,
    name: &str,
    saved: &str,
    i: u32,
    s: Scheme,
    none: Scheme,
)
    requires
        call_ensures(theme_name, (selected,), name),
        call_ensures(theme_index, (Some(saved),), i),
        call_ensures(apply_theme, (Some(saved),), s),
        call_ensures(apply_theme, (None,), none),
        saved@ == name@,
        selected < 3,
    ensures
        i == selected,
        selected == 0 ==> name@ == "system"@ && s == Scheme::SystemDefault,
        selected == 1 ==> name@ == "light"@ && s == Scheme::ForceLight,
        selected == 2 ==> name@ == "dark"@ && s == Scheme::ForceDark,
        none == Scheme::PreferDark,
{
    law_theme_comes_back(selected);
    reveal_strlit("light");
    reveal_strlit("dark");
    reveal_strlit("system");
    assert("light"@.len() == 5 && "dark"@.len() == 4 && "system"@.len() == 6);
}

/// The saved device goes before the one from the environment, and that before the one that was
/// found; without any of them it is the first card.
pub proof fn law_saved_device_goes_first(
    saved: Option<String>,
    env: Option<String>,
    found: Option<String>,
    d: String,
)
    requires
        call_ensures(pick_device, (saved, env, found), d),
    ensures
        saved is Some ==> d@ == saved->0@,
        saved is None && env is Some ==> d@ == env->0@,
        saved is None && env is None && found is Some ==> d@ == found->0@,
        saved is None && env is None && found is None ==> d@ == "hw:0,0"@,
{
}

/// The album that is found has the name and the artist, both, and is the first such one.
pub proof fn law_album_is_found_by_name_and_artist(
    albums: Vec<Album>,
    album: &str,
    by: Option<&str>,
    r: Option<usize>,
    k: int,
)
    requires
        call_ensures(find_album, (&albums, album, by), r),
        0 <= k < albums@.len(),
    ensures
        ({
            let fits = |al: Album|
                al.album@ == album@ && (al.album_artist is Some <==> by is Some) && (by is Some
                    ==> al.album_artist->0@ == by->0@);
            &&& r matches Some(i) ==> i < albums@.len() && fits(albums@[i as int])
            &&& r matches Some(i) ==> k < i ==> !fits(albums@[k])
            &&& r is None ==> !fits(albums@[k])
        }),
{
    let args = (&albums, album, by);
    assert(args.0@[k] == albums@[k]);
}

/// Tracks of albums are added up.
pub proof fn law_tracks_of_albums_add_up(
    albums: Vec<Album>,
    more: Vec<Album>,
    last: Album,
    a: u32,
    b: u32,
)
    requires
        call_ensures(count_tracks, (&albums,), a),
        call_ensures(count_tracks, (&more,), b),
        more@ == albums@.push(last),
        tracks_in(more@) <= u32::MAX,
    ensures
        albums@.len() == 0 ==> a == 0,
        b == a + last.track_count,
{
    assert(more@.drop_last() =~= albums@);
}

/// A track leads to its album's artist, or to its own if the album has none, and to its album; an
/// empty name leads nowhere. In its album it is listed with its number.
pub proof fn law_track_leads_to_artist_and_album(
    t: Track,
    a: Option<String>,
    al: Option<String>,
    s: String,
    title: String,
)
    requires
        call_ensures(artist_of, (&t,), a),
        call_ensures(album_of, (&t,), al),
        call_ensures(numbered_title, (&t,), s),
        call_ensures(Track::display_title, (&t,), title),
    ensures
        t.album_artist matches Some(x) ==> (x@.len() > 0 ==> a == Some(x)) && (x@.len() == 0
            ==> a is None),
        t.album_artist is None ==> {
            &&& t.artist is None ==> a is None
            &&& t.artist matches Some(x) ==> (x@.len() > 0 ==> a == Some(x)) && (x@.len() == 0
                ==> a is None)
        },
        t.album is None ==> al is None,
        t.album matches Some(x) ==> (x@.len() > 0 ==> al == Some(x)) && (x@.len() == 0
            ==> al is None),
        t.track_no is None ==> s@ == title@,
        t.track_no matches Some(n) ==> s@ == decimal(n as nat) + ".  "@ + title@,
{
    assert(Seq::<char>::empty() + t.title_text() =~= t.title_text());
}

/// Layout goes by the window's own width, or by the one it asks for before it has one, and never
/// by more than the screen's.
pub proof fn law_layout_fits_the_screen(
    width: i32,
    default_width: i32,
    monitor: Option<i32>,
    w: i32,
)
    requires
        call_ensures(window_width, (width, default_width, monitor), w),
    ensures
        ({
            let own = if width > 0 {
                width
            } else {
                default_width
            };
            &&& monitor is None ==> w == own
            &&& monitor matches Some(m) ==> {
                &&& m > 0 && m < own ==> w == m
                &&& m <= 0 || m >= own ==> w == own
            }
        }),
{
}

/// The buffer sizes on offer double from four to thirty-two periods; each is shown as chosen
/// again, and the size is told in frames.
pub proof fn law_buffer_sizes_double(
    sel: u32,
    p: i64,
    i: u32,
    s: String,
    other: i64,
    j: u32,
)
    requires
        call_ensures(buffer_periods, (sel,), p),
        call_ensures(buffer_index, (p,), i),
        call_ensures(buffer_text, (p,), s),
        call_ensures(buffer_index, (other,), j),
        sel < 4,
    ensures
        sel == 0 ==> p == 4,
        sel == 1 ==> p == 8,
        sel == 2 ==> p == 16,
        sel == 3 ==> p == 32,
        i == sel,
        s@ == "Output buffer \u{2192} "@ + decimal((p * 1024) as nat) + " frames"@,
        other != 4 && other != 8 && other != 16 && other != 32 ==> j == 1,
{
    assert(periods_at(0) == 4 && periods_at(1) == 8 && periods_at(2) == 16 && periods_at(3) == 32);
    assert(periods_at(sel as int) == p);
    assert(periods_at(i as int) == p);
    if other != 4 && other != 8 && other != 16 && other != 32 {
        assert forall|k: int| 0 <= k < 4 implies #[trigger] periods_at(k) != other by {}
    }
}

/// The device in use is shown as chosen: the last entry of its name, and the first entry if there
/// is none.
pub proof fn law_device_in_use_is_shown(devices: Vec<DeviceInfo>, current: &str, sel: u32, k: int)
    requires
        call_ensures(device_index, (&devices, current), sel),
        devices@.len() <= u32::MAX,
    ensures
        0 <= k < devices@.len() && devices@[k].id@ == current@ && (forall|j: int|
            k < j < devices@.len() ==> (#[trigger] devices@[j]).id@ != current@) ==> sel == k,
        (forall|j: int| 0 <= j < devices@.len() ==> (#[trigger] devices@[j]).id@ != current@)
            ==> sel == 0,
{
    if 0 <= k < devices@.len() && devices@[k].id@ == current@ && (forall|j: int|
        k < j < devices@.len() ==> (#[trigger] devices@[j]).id@ != current@) {
        lemma_last_with_id(devices@, current@, k);
    }
    if forall|j: int| 0 <= j < devices@.len() ==> (#[trigger] devices@[j]).id@ != current@ {
        lemma_last_with_id(devices@, current@, -1);
    }
}

proof fn lemma_last_with_id(devices: Seq<DeviceInfo>, id: Seq<char>, k: int)
    requires
        -1 <= k < devices.len(),
        k >= 0 ==> devices[k].id@ == id,
        forall|j: int| k < j < devices.len() ==> (#[trigger] devices[j]).id@ != id,
    ensures
        last_with_id(devices, id) == (if k >= 0 {
            Some(k)
        } else {
            None
        }),
    decreases devices.len(),
{
    if devices.len() > 0 && k < devices.len() - 1 {
        assert(devices[devices.len() - 1].id@ != id);
        let t = devices.drop_last();
        assert forall|j: int| k < j < t.len() implies (#[trigger] t[j]).id@ != id by {
            assert(t[j] == devices[j]);
        }
        lemma_last_with_id(t, id, k);
    }
}

/// Only the press of a volume key counts, the lower code for down and the higher for up.
pub proof fn law_volume_keys(code: u16, value: i32, k: Option<HwKey>)
    requires
        call_ensures(hw_key, (code, value), k),
    ensures
        k == Some(HwKey::VolumeDown) <==> value == 1 && code == 114,
        k == Some(HwKey::VolumeUp) <==> value == 1 && code == 115,
        k is None <==> value != 1 || (code != 114 && code != 115),
{
}

proof fn lemma_az_changes(albums: Seq<Album>, sort: Sort, n: nat, k: int)
    requires
        0 <= k,
        k + 1 < az(albums, sort, n).len(),
    ensures
        az(albums, sort, n)[k].0 != az(albums, sort, n)[k + 1].0,
    decreases n,
{
    if n > 0 {
        let m = (n - 1) as nat;
        let rest = az(albums, sort, m);
        if k + 1 < rest.len() {
            lemma_az_changes(albums, sort, m, k);
        }
    }
}

/// The jump index has an entry only where the letter changes: no two entries in a row have the
/// same letter.
pub proof fn law_jump_index_changes_letters(
    albums: Vec<Album>,
    sort: Sort,
    idx: Vec<(char, usize)>,
    k: int,
)
    requires
        call_ensures(build_az_index, (&albums, sort), idx),
        0 <= k,
        k + 1 < idx@.len(),
    ensures
        idx@[k].0 != idx@[k + 1].0,
{
    lemma_az_changes(albums@, sort, albums@.len(), k);
}

/// A saved theme that is neither light nor dark follows the system, and is shown as such; so is
/// none.
pub proof fn law_other_themes_follow_the_system(
    saved: &str,
    i: u32,
    s: Scheme,
    j: u32,
    selected: u32,
    name: &str,
)
    requires
        call_ensures(theme_index, (Some(saved),), i),
        call_ensures(apply_theme, (Some(saved),), s),
        call_ensures(theme_index, (None,), j),
        call_ensures(theme_name, (selected,), name),
    ensures
        saved@ != "light"@ && saved@ != "dark"@ ==> i == 0 && s == Scheme::SystemDefault,
        j == 0,
        selected != 1 && selected != 2 ==> name@ == "system"@,
{
}

/// A buffer size that is not on offer is shown as the default, which is on offer.
pub proof fn law_default_buffer_is_on_offer(other: i64, i: u32, p: i64)
    requires
        call_ensures(buffer_index, (other,), i),
        call_ensures(buffer_periods, (i,), p),
        other != 4 && other != 8 && other != 16 && other != 32,
    ensures
        p == crate::engine::DEFAULT_PERIODS,
{
    assert(periods_at(0) == 4 && periods_at(1) == 8 && periods_at(2) == 16 && periods_at(3) == 32);
    assert forall|k: int| 0 <= k < 4 implies #[trigger] periods_at(k) != other by {}
    assert(periods_at(i as int) == p);
}

proof fn lemma_az_prefix(albums: Seq<Album>, sort: Sort, m: nat, n: nat)
    requires
        m <= n <= albums.len() <= usize::MAX,
    ensures
        az(albums, sort, m).len() <= az(albums, sort, n).len(),
        forall|k: int|
            0 <= k < az(albums, sort, m).len() ==> #[trigger] az(albums, sort, n)[k] == az(
                albums,
                sort,
                m,
            )[k],
        forall|k: int|
            az(albums, sort, m).len() <= k < az(albums, sort, n).len() ==> (#[trigger] az(
                albums,
                sort,
                n,
            )[k]).1 >= m,
    decreases n,
{
    if m < n {
        lemma_az_prefix(albums, sort, m, (n - 1) as nat);
    }
}

/// The last entry at or before an album has the letter of the album: no entry of another letter
/// lies between.
pub proof fn law_nearest_entry_has_the_letter(
    albums: Vec<Album>,
    sort: Sort,
    idx: Vec<(char, usize)>,
    i: int,
)
    requires
        call_ensures(build_az_index, (&albums, sort), idx),
        0 <= i < albums@.len() <= usize::MAX,
        sort_letter(albums@[i], sort) is Some,
        sort_letter(albums@[i], sort) != Some('\0'),
    ensures
        exists|m: int|
            0 <= m < idx@.len() && (#[trigger] idx@[m]).1 <= i && idx@[m].0 == sort_letter(
                albums@[i],
                sort,
            )->0 && (m + 1 < idx@.len() ==> idx@[m + 1].1 > i),
{
    let s = albums@;
    let n = (i + 1) as nat;
    let upto = az(s, sort, n);
    assert(sort_letter(s[i], sort) == az_letter(s[i], sort));
    lemma_az(s, sort, n);
    lemma_az_prefix(s, sort, n, s.len());
    let before = az(s, sort, i as nat);
    let c = sort_letter(s[i], sort)->0;
    assert(upto.len() > 0 && upto.last().0 == c);
    let m = upto.len() - 1;
    assert(idx@[m] == upto[m]);
    assert(upto[m].1 < n);
    if m + 1 < idx@.len() {
        assert(idx@[m + 1].1 >= n);
    }
}

} // verus!
