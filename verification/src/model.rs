//! What the library knows of the music: tracks, albums, artists, folders.
use crate::cue::opt_text;
use crate::paths::{file_stem, file_stem_of};
use crate::span::Span;
use crate::text::{
    chars_of, decimal, padded, push_decimal, push_padded, push_signed, signed_decimal,
};
use vstd::prelude::*;
use vstd::string::*;

verus! {

/// A track as the library lists it.
#[derive(Debug)]
pub struct Track {
    pub id: i64,
    /// What the track is known by. Tracks inside another file are `<file>#<number>`.
    pub path: String,
    pub folder: String,
    pub title: Option<String>,
    pub artist: Option<String>,
    pub album_artist: Option<String>,
    pub album: Option<String>,
    pub composer: Option<String>,
    pub genre: Option<String>,
    pub track_no: Option<u32>,
    pub disc_no: Option<u32>,
    pub year: Option<i32>,
    pub duration_ms: Option<u64>,
    pub codec: Option<String>,
    pub sample_rate: Option<u32>,
    pub bits: Option<u32>,
    pub channels: Option<u32>,
    pub art_hash: Option<String>,
    /// The audio file, where it is not `path` itself.
    pub source_path: Option<String>,
    /// Where the track starts in a CUE sheet's file.
    pub start_ms: Option<u64>,
    pub loved: bool,
}

impl Clone for Track {
    fn clone(&self) -> (r: Self)
        ensures
            r == *self,
    {
        Track {
            id: self.id,
            path: self.path.clone(),
            folder: self.folder.clone(),
            title: clone_opt(&self.title),
            artist: clone_opt(&self.artist),
            album_artist: clone_opt(&self.album_artist),
            album: clone_opt(&self.album),
            composer: clone_opt(&self.composer),
            genre: clone_opt(&self.genre),
            track_no: self.track_no,
            disc_no: self.disc_no,
            year: self.year,
            duration_ms: self.duration_ms,
            codec: clone_opt(&self.codec),
            sample_rate: self.sample_rate,
            bits: self.bits,
            channels: self.channels,
            art_hash: clone_opt(&self.art_hash),
            source_path: clone_opt(&self.source_path),
            start_ms: self.start_ms,
            loved: self.loved,
        }
    }
}

/// The separator between the parts of a label.
pub open spec fn dot() -> Seq<char> {
    " \u{b7} "@
}

/// The parts that are there, joined.
pub open spec fn joined(parts: Seq<Seq<char>>) -> Seq<char>
    decreases parts.len(),
{
    if parts.len() == 0 {
        Seq::empty()
    } else if parts.len() == 1 {
        parts[0]
    } else {
        joined(parts.drop_last()) + dot() + parts.last()
    }
}

/// `parts` with one more, if it is there.
pub open spec fn and_part(parts: Seq<Seq<char>>, p: Option<Seq<char>>) -> Seq<Seq<char>> {
    match p {
        Some(t) => parts.push(t),
        None => parts,
    }
}

fn add_part(out: &mut String, first: &mut bool, part: &str, Ghost(parts): Ghost<Seq<Seq<char>>>)
    requires
        old(out)@ == joined(parts),
        *old(first) == (parts.len() == 0),
    ensures
        final(out)@ == joined(parts.push(part@)),
        *final(first) == false,
{
    if *first {
        out.append(part);
        assert(out@ =~= part@);
        assert(parts.push(part@)[0] == part@);
    } else {
        out.append(" \u{b7} ");
        out.append(part);
        assert(parts.push(part@).drop_last() =~= parts);
        assert(out@ =~= joined(parts) + dot() + part@);
    }
    *first = false;
}

pub open spec fn bits_text(bits: Option<u32>) -> Option<Seq<char>> {
    match bits {
        Some(b) => Some(decimal(b as nat) + "-bit"@),
        None => None,
    }
}

pub open spec fn rate_text(rate: Option<u32>) -> Option<Seq<char>> {
    match rate {
        Some(r) => Some(khz_text(r as nat)),
        None => None,
    }
}

pub open spec fn length_text(ms: Option<u64>) -> Option<Seq<char>> {
    match ms {
        Some(m) => Some(duration_text(m as nat)),
        None => None,
    }
}

fn bits_label(b: u32) -> (s: String)
    ensures
        s@ == decimal(b as nat) + "-bit"@,
{
    let mut s = String::new();
    push_decimal(&mut s, b as u64);
    s.append("-bit");
    assert(s@ =~= decimal(b as nat) + "-bit"@);
    s
}

impl Track {
    /// The title; without one, the file's name without its extension; without that, the path.
    pub open spec fn title_text(self) -> Seq<char> {
        match self.title {
            Some(t) => t@,
            None => match file_stem(self.path@) {
                Some(n) => n,
                None => self.path@,
            },
        }
    }

    pub fn display_title(&self) -> (s: String)
        ensures
            s@ == self.title_text(),
    {
        match &self.title {
            Some(t) => t.clone(),
            None => match file_stem_of(self.path.as_str()) {
                Some(n) => n,
                None => self.path.clone(),
            },
        }
    }

    pub fn subtitle(&self) -> (s: String)
        ensures
            s@ == (match (self.artist, self.album) {
                (Some(a), Some(al)) => a@ + dot() + al@,
                (Some(a), None) => a@,
                (None, Some(al)) => al@,
                (None, None) => "Unknown Artist"@,
            }),
    {
        match (&self.artist, &self.album) {
            (Some(a), Some(al)) => {
                let mut s = a.clone();
                s.append(" \u{b7} ");
                s.append(al.as_str());
                s
            },
            (Some(a), None) => a.clone(),
            (None, Some(al)) => al.clone(),
            (None, None) => String::from_str("Unknown Artist"),
        }
    }

    pub fn duration(&self) -> (d: Option<Span>)
        ensures
            match self.duration_ms {
                Some(ms) => d matches Some(s) && s.nanos == ms * 1_000_000,
                None => d is None,
            },
    {
        match self.duration_ms {
            Some(ms) => Some(Span::from_millis(ms)),
            None => None,
        }
    }

    /// Resolution, rate and codec, as far as they are known.
    pub fn signal_spec(&self) -> (s: String)
        ensures
            s@ == joined(
                and_part(
                    and_part(
                        and_part(Seq::empty(), bits_text(self.bits)),
                        rate_text(self.sample_rate),
                    ),
                    opt_text(self.codec),
                ),
            ),
    {
        let mut s = String::new();
        let mut first = true;
        let ghost mut parts: Seq<Seq<char>> = Seq::empty();
        if let Some(b) = self.bits {
            let t = bits_label(b);
            add_part(&mut s, &mut first, t.as_str(), Ghost(parts));
            proof {
                parts = parts.push(t@);
            }
        }
        if let Some(r) = self.sample_rate {
            let t = fmt_khz(r);
            add_part(&mut s, &mut first, t.as_str(), Ghost(parts));
            proof {
                parts = parts.push(t@);
            }
        }
        if let Some(c) = &self.codec {
            add_part(&mut s, &mut first, c.as_str(), Ghost(parts));
            proof {
                parts = parts.push(c@);
            }
        }
        s
    }

    /// Length, codec, rate and resolution, as far as they are known.
    pub fn format_spec(&self) -> (s: String)
        ensures
            s@ == joined(
                and_part(
                    and_part(
                        and_part(
                            and_part(Seq::empty(), length_text(self.duration_ms)),
                            opt_text(self.codec),
                        ),
                        rate_text(self.sample_rate),
                    ),
                    bits_text(self.bits),
                ),
            ),
    {
        let mut s = String::new();
        let mut first = true;
        let ghost mut parts: Seq<Seq<char>> = Seq::empty();
        if let Some(ms) = self.duration_ms {
            let t = fmt_dur_ms(ms);
            add_part(&mut s, &mut first, t.as_str(), Ghost(parts));
            proof {
                parts = parts.push(t@);
            }
        }
        if let Some(c) = &self.codec {
            add_part(&mut s, &mut first, c.as_str(), Ghost(parts));
            proof {
                parts = parts.push(c@);
            }
        }
        if let Some(r) = self.sample_rate {
            let t = fmt_khz(r);
            add_part(&mut s, &mut first, t.as_str(), Ghost(parts));
            proof {
                parts = parts.push(t@);
            }
        }
        if let Some(b) = self.bits {
            let t = bits_label(b);
            add_part(&mut s, &mut first, t.as_str(), Ghost(parts));
            proof {
                parts = parts.push(t@);
            }
        }
        s
    }

    /// The part of the source file to play, for a track of a CUE sheet.
    pub fn cue_range(&self) -> (r: Option<(Span, Span)>)
        ensures
            match self.start_ms {
                None => r is None,
                Some(start) => r matches Some((a, b)) && a.nanos == start * 1_000_000 && b.nanos
                    == (start + (match self.duration_ms {
                    Some(d) => d as int,
                    None => 0,
                })) * 1_000_000,
            },
    {
        match self.start_ms {
            None => None,
            Some(start) => {
                let d: u64 = match self.duration_ms {
                    Some(d) => d,
                    None => 0,
                };
                let a = Span::from_millis(start);
                let len = Span::from_millis(d);
                Some((a, Span { nanos: a.nanos + len.nanos }))
            },
        }
    }
}

#[derive(Debug)]
pub struct Album {
    pub album: String,
    pub album_artist: Option<String>,
    pub year: Option<i32>,
    pub track_count: u32,
    pub total_ms: u64,
    pub art_hash: Option<String>,
}

/// How long tracks take together, as far as that is known.
pub open spec fn sum_ms(ts: Seq<Track>) -> nat
    decreases ts.len(),
{
    if ts.len() == 0 {
        0
    } else {
        sum_ms(ts.drop_last()) + (match ts.last().duration_ms {
            Some(d) => d as nat,
            None => 0,
        })
    }
}

/// The year of the first track that has one.
pub open spec fn year_of(ts: Seq<Track>) -> Option<i32>
    decreases ts.len(),
{
    if ts.len() == 0 {
        None
    } else {
        match year_of(ts.drop_last()) {
            Some(y) => Some(y),
            None => ts.last().year,
        }
    }
}

/// The cover of the first track that has one.
pub open spec fn cover_of(ts: Seq<Track>) -> Option<String>
    decreases ts.len(),
{
    if ts.len() == 0 {
        None
    } else {
        match cover_of(ts.drop_last()) {
            Some(h) => Some(h),
            None => ts.last().art_hash,
        }
    }
}

proof fn lemma_sum_grows(ts: Seq<Track>, n: int)
    requires
        0 <= n <= ts.len(),
    ensures
        sum_ms(ts.take(n)) <= sum_ms(ts),
    decreases ts.len() - n,
{
    if n == ts.len() {
        assert(ts.take(n) =~= ts);
    } else {
        lemma_sum_grows(ts, n + 1);
        assert(ts.take(n + 1).drop_last() =~= ts.take(n));
    }
}

impl Album {
    /// The album that some tracks make up.
    pub fn of_tracks(album: String, album_artist: Option<String>, tracks: &Vec<Track>) -> (a: Self)
        requires
            tracks@.len() <= u32::MAX,
            sum_ms(tracks@) <= u64::MAX,
        ensures
            a == (Album {
                album,
                album_artist,
                year: year_of(tracks@),
                track_count: tracks@.len() as u32,
                total_ms: sum_ms(tracks@) as u64,
                art_hash: cover_of(tracks@),
            }),
    {
        let mut year: Option<i32> = None;
        let mut total_ms: u64 = 0;
        let mut art_hash: Option<String> = None;
        for i in 0..tracks.len()
            invariant
                sum_ms(tracks@) <= u64::MAX,
                year == year_of(tracks@.take(i as int)),
                total_ms == sum_ms(tracks@.take(i as int)),
                art_hash == cover_of(tracks@.take(i as int)),
        {
            let ghost upto = tracks@.take(i + 1);
            assert(upto.drop_last() =~= tracks@.take(i as int));
            assert(upto.last() == tracks@[i as int]);
            proof {
                lemma_sum_grows(tracks@, i + 1);
            }
            if year.is_none() {
                year = tracks[i].year;
            }
            if let Some(d) = tracks[i].duration_ms {
                total_ms = total_ms + d;
            }
            if art_hash.is_none() {
                art_hash = clone_opt(&tracks[i].art_hash);
            }
        }
        assert(tracks@.take(tracks@.len() as int) =~= tracks@);
        Album {
            album,
            album_artist,
            year,
            track_count: tracks.len() as u32,
            total_ms,
            art_hash,
        }
    }

    /// It is the album of that name by that artist.
    pub open spec fn is(self, album: Seq<char>, album_artist: Option<Seq<char>>) -> bool {
        self.album@ == album && (match self.album_artist {
            Some(a) => album_artist == Some(a@),
            None => album_artist is None,
        })
    }
}

/// "1 track", "2 tracks", and how long they take.
pub open spec fn count_text(n: nat, total_ms: nat) -> Seq<char> {
    decimal(n) + " track"@ + (if n == 1 {
        ""@
    } else {
        "s"@
    }) + dot() + duration_text(total_ms)
}

fn count_label(n: u32, total_ms: u64) -> (s: String)
    ensures
        s@ == count_text(n as nat, total_ms as nat),
{
    let mut s = String::new();
    push_decimal(&mut s, n as u64);
    s.append(" track");
    if n == 1 {
        s.append("");
    } else {
        s.append("s");
    }
    s.append(" \u{b7} ");
    let d = fmt_dur_ms(total_ms);
    s.append(d.as_str());
    assert(s@ =~= count_text(n as nat, total_ms as nat));
    s
}

/// A copy of an optional text.
pub fn clone_opt(o: &Option<String>) -> (r: Option<String>)
    ensures
        r == *o,
{
    match o {
        Some(s) => Some(s.clone()),
        None => None,
    }
}

impl Clone for Album {
    fn clone(&self) -> (r: Self)
        ensures
            r == *self,
    {
        Album {
            album: self.album.clone(),
            album_artist: clone_opt(&self.album_artist),
            year: self.year,
            track_count: self.track_count,
            total_ms: self.total_ms,
            art_hash: clone_opt(&self.art_hash),
        }
    }
}

impl Album {
    pub fn meta(&self) -> (s: String)
        ensures
            s@ == count_text(self.track_count as nat, self.total_ms as nat) + (match self.year {
                Some(y) => dot() + signed_decimal(y as int),
                None => Seq::empty(),
            }),
    {
        let mut s = count_label(self.track_count, self.total_ms);
        let ghost base = s@;
        if let Some(y) = self.year {
            s.append(" \u{b7} ");
            push_signed(&mut s, y as i64);
            assert(s@ =~= base + (dot() + signed_decimal(y as int)));
        } else {
            assert(s@ =~= base + Seq::<char>::empty());
        }
        s
    }
}

#[derive(Debug)]
pub struct Artist {
    pub name: String,
    pub album_count: u32,
    pub track_count: u32,
}

impl Clone for Artist {
    fn clone(&self) -> (r: Self)
        ensures
            r == *self,
    {
        Artist {
            name: self.name.clone(),
            album_count: self.album_count,
            track_count: self.track_count,
        }
    }
}

#[derive(Debug)]
pub struct Folder {
    pub path: String,
    pub track_count: u32,
    pub total_ms: u64,
}

impl Clone for Folder {
    fn clone(&self) -> (r: Self)
        ensures
            r == *self,
    {
        Folder {
            path: self.path.clone(),
            track_count: self.track_count,
            total_ms: self.total_ms,
        }
    }
}

pub open spec fn is_slash(c: char) -> bool {
    c == '/' || c == '\\'
}

/// Where the slashes at the end start.
pub open spec fn before_slashes(p: Seq<char>) -> int
    decreases p.len(),
{
    if p.len() > 0 && is_slash(p.last()) {
        before_slashes(p.drop_last())
    } else {
        p.len() as int
    }
}

/// Where the piece behind the last slash starts.
pub open spec fn behind_slash(p: Seq<char>) -> int
    decreases p.len(),
{
    if p.len() == 0 || is_slash(p.last()) {
        p.len() as int
    } else {
        behind_slash(p.drop_last())
    }
}

/// The last piece of a path between slashes of either kind; the path if it has none.
pub open spec fn last_piece(p: Seq<char>) -> Seq<char> {
    let end = before_slashes(p);
    if end == 0 {
        p
    } else {
        p.subrange(behind_slash(p.take(end)), end)
    }
}

impl Folder {
    pub fn name(&self) -> (s: &str)
        ensures
            s@ == last_piece(self.path@),
    {
        let p = chars_of(self.path.as_str());
        let mut end: usize = p.len();
        assert(p@.take(end as int) =~= p@);
        while end > 0 && (p[end - 1] == '/' || p[end - 1] == '\\')
            invariant
                end <= p@.len(),
                before_slashes(p@) == before_slashes(p@.take(end as int)),
            decreases end,
        {
            assert(p@.take(end as int).last() == p@[end - 1]);
            assert(p@.take(end as int).drop_last() =~= p@.take(end - 1));
            end = end - 1;
        }
        proof {
            if end > 0 {
                assert(p@.take(end as int).last() == p@[end - 1]);
            }
        }
        assert(before_slashes(p@) == end);
        if end == 0 {
            return self.path.as_str();
        }
        let ghost cut = p@.take(end as int);
        let mut k: usize = end;
        assert(cut.take(k as int) =~= cut);
        while k > 0 && p[k - 1] != '/' && p[k - 1] != '\\'
            invariant
                k <= end <= p@.len(),
                cut == p@.take(end as int),
                behind_slash(cut) == behind_slash(cut.take(k as int)),
            decreases k,
        {
            assert(cut.take(k as int).last() == p@[k - 1]);
            assert(cut.take(k as int).drop_last() =~= cut.take(k - 1));
            k = k - 1;
        }
        proof {
            if k > 0 {
                assert(cut.take(k as int).last() == p@[k - 1]);
            }
        }
        self.path.as_str().substring_char(k, end)
    }

    pub fn meta(&self) -> (s: String)
        ensures
            s@ == count_text(self.track_count as nat, self.total_ms as nat),
    {
        count_label(self.track_count, self.total_ms)
    }
}

/// What a search found.
#[derive(Debug)]
pub struct SearchResults {
    pub albums: Vec<Album>,
    pub artists: Vec<Artist>,
    pub folders: Vec<Folder>,
    pub tracks: Vec<Track>,
}

/// What to search for.
#[derive(Clone, Copy, Debug, PartialEq, Eq, Structural)]
pub enum Filter {
    All,
    Tracks,
    Albums,
    Artists,
    AlbumArtists,
    Composers,
    Genres,
}

impl Default for Filter {
    fn default() -> (f: Self)
        ensures
            f == Filter::All,
    {
        Filter::All
    }
}

/// What to sort by.
#[derive(Clone, Copy, Debug, PartialEq, Eq, Structural)]
pub enum Sort {
    Title,
    Artist,
    Album,
    Year,
}

impl Default for Sort {
    fn default() -> (f: Self)
        ensures
            f == Sort::Title,
    {
        Sort::Title
    }
}

/// What a scan did.
#[derive(Clone, Copy, Debug, PartialEq, Eq, Structural)]
pub struct ScanStats {
    pub added: u64,
    pub updated: u64,
    pub moved: u64,
    pub removed: u64,
    pub unchanged: u64,
    pub errors: u64,
    pub elapsed_ms: u128,
}

impl Default for ScanStats {
    fn default() -> (s: Self)
        ensures
            s == (ScanStats {
                added: 0,
                updated: 0,
                moved: 0,
                removed: 0,
                unchanged: 0,
                errors: 0,
                elapsed_ms: 0,
            }),
    {
        ScanStats {
            added: 0,
            updated: 0,
            moved: 0,
            removed: 0,
            unchanged: 0,
            errors: 0,
            elapsed_ms: 0,
        }
    }
}

impl ScanStats {
    /// The tracks that are in the library after the scan, as far as it saw them.
    pub fn total_seen(&self) -> (n: u64)
        requires
            self.added + self.updated + self.moved + self.unchanged <= u64::MAX,
        ensures
            n == self.added + self.updated + self.moved + self.unchanged,
    {
        self.added + self.updated + self.moved + self.unchanged
    }
}

/// How far a scan has come.
#[derive(Debug)]
pub struct ScanProgress {
    pub seen: u64,
    pub total: u64,
    pub path: String,
}

/// A thousand times two to the fifty-second: quotients of numbers from here on by a thousand
/// have all the fifty-three bits of a double.
pub open spec fn full_width() -> nat {
    4_503_599_627_370_496_000
}

/// `n` doubled until its quotient by a thousand has as many bits as a double holds.
pub open spec fn scaled(n: nat) -> nat
    decreases 2 * full_width() - n,
{
    if n == 0 || n >= full_width() {
        n
    } else {
        scaled(2 * n)
    }
}

/// The double nearest to `n` thousandths is larger than that.
pub open spec fn double_is_above(n: nat) -> bool {
    let r = scaled(n) % 1000;
    r > 500 || (r == 500 && (scaled(n) / 1000) % 2 == 1)
}

/// The double nearest to `n` thousandths is exactly that.
pub open spec fn double_is_exact(n: nat) -> bool {
    scaled(n) % 1000 == 0
}

/// `n` thousandths as a double, rounded to tenths: to the nearer one, and from the middle
/// to the even one.
pub open spec fn tenths(n: nat) -> nat {
    let low = n / 100;
    if n % 100 < 50 {
        low
    } else if n % 100 > 50 {
        low + 1
    } else if double_is_exact(n) {
        low + low % 2
    } else if double_is_above(n) {
        low + 1
    } else {
        low
    }
}

/// A rate in kilohertz: whole, or to one place.
pub open spec fn khz_text(rate: nat) -> Seq<char> {
    if rate % 1000 == 0 {
        decimal(rate / 1000) + " kHz"@
    } else {
        decimal(tenths(rate) / 10) + "."@ + decimal(tenths(rate) % 10) + " kHz"@
    }
}

fn tenths_of(n: u32) -> (t: u64)
    ensures
        t == tenths(n as nat),
{
    let low: u64 = n as u64 / 100;
    let rem: u32 = n % 100;
    if rem < 50 {
        return low;
    }
    if rem > 50 {
        return low + 1;
    }
    let mut s: u64 = n as u64;
    while s != 0 && s < 4_503_599_627_370_496_000
        invariant
            scaled(n as nat) == scaled(s as nat),
            s < 9_007_199_254_740_992_000,
        decreases 9_007_199_254_740_992_000 - s,
    {
        s = 2 * s;
    }
    let r: u64 = s % 1000;
    if r == 0 {
        low + low % 2
    } else if r > 500 || (r == 500 && (s / 1000) % 2 == 1) {
        low + 1
    } else {
        low
    }
}

pub fn fmt_khz(rate: u32) -> (s: String)
    ensures
        s@ == khz_text(rate as nat),
{
    let mut s = String::new();
    if rate % 1000 == 0 {
        push_decimal(&mut s, (rate / 1000) as u64);
    } else {
        let t: u64 = tenths_of(rate);
        push_decimal(&mut s, t / 10);
        s.append(".");
        push_decimal(&mut s, t % 10);
    }
    s.append(" kHz");
    assert(s@ =~= khz_text(rate as nat));
    s
}

/// A length as `m:ss`, or `h:mm:ss` from an hour on.
pub open spec fn duration_text(ms: nat) -> Seq<char> {
    let secs = ms / 1000;
    let h = secs / 3600;
    let m = (secs % 3600) / 60;
    let s = secs % 60;
    if h > 0 {
        decimal(h) + ":"@ + padded(m, 2) + ":"@ + padded(s, 2)
    } else {
        decimal(m) + ":"@ + padded(s, 2)
    }
}

pub fn fmt_dur_ms(ms: u64) -> (r: String)
    ensures
        r@ == duration_text(ms as nat),
{
    let secs: u64 = ms / 1000;
    let h: u64 = secs / 3600;
    let m: u64 = (secs % 3600) / 60;
    let s: u64 = secs % 60;
    let mut r = String::new();
    if h > 0 {
        push_decimal(&mut r, h);
        r.append(":");
        push_padded(&mut r, m, 2);
        r.append(":");
        push_padded(&mut r, s, 2);
    } else {
        push_decimal(&mut r, m);
        r.append(":");
        push_padded(&mut r, s, 2);
    }
    assert(r@ =~= duration_text(ms as nat));
    r
}

/// A rate shown to one place is never further than half a place from the rate itself.
pub proof fn law_shown_rate_is_near(rate: nat)
    ensures
        -50 <= tenths(rate) * 100 - rate <= 50,
{
}

/// A track is shown by its title; one without by its file's stem, or by its path if that names no
/// file. Below stand its artist and its album, or whichever is known.
pub proof fn law_titles_are_shown(
    t: Track,
    path: &str,
    title: String,
    stem: Option<String>,
    sub: String,
)
    requires
        call_ensures(Track::display_title, (&t,), title),
        call_ensures(crate::paths::file_stem_of, (path,), stem),
        call_ensures(Track::subtitle, (&t,), sub),
        path@ == t.path@,
    ensures
        t.title matches Some(x) ==> title@ == x@,
        t.title is None && stem is Some ==> title@ == stem->0@,
        t.title is None && stem is None ==> title@ == t.path@,
        t.artist is Some && t.album is Some ==> sub@ == t.artist->0@ + " \u{b7} "@ + t.album->0@,
        t.artist is Some && t.album is None ==> sub@ == t.artist->0@,
        t.artist is None && t.album is Some ==> sub@ == t.album->0@,
        t.artist is None && t.album is None ==> sub@ == "Unknown Artist"@,
{
}

/// A length in milliseconds is that time, and a track of a sheet lasts from its start for its
/// length.
pub proof fn law_lengths_are_times(t: Track, d: Option<Span>, r: Option<(Span, Span)>)
    requires
        call_ensures(Track::duration, (&t,), d),
        call_ensures(Track::cue_range, (&t,), r),
    ensures
        d is Some <==> t.duration_ms is Some,
        d matches Some(s) ==> s.nanos == t.duration_ms->0 * 1_000_000,
        r is Some <==> t.start_ms is Some,
        r matches Some((a, b)) ==> {
            &&& a.nanos == t.start_ms->0 * 1_000_000
            &&& t.duration_ms matches Some(ms) ==> b.nanos == a.nanos + ms * 1_000_000
            &&& t.duration_ms is None ==> b == a
        },
{
}

/// The signal is described by resolution, rate and codec, in this order, with dots between those
/// that are known.
pub proof fn law_signal_is_described(t: Track, s: String, rate: u32, khz: String)
    requires
        call_ensures(Track::signal_spec, (&t,), s),
        call_ensures(fmt_khz, (rate,), khz),
        t.sample_rate is Some ==> t.sample_rate == Some(rate),
    ensures
        ({
            let dot = " \u{b7} "@;
            let bits = decimal(t.bits->0 as nat) + "-bit"@;
            let codec = t.codec->0@;
            let has = (t.bits is Some, t.sample_rate is Some, t.codec is Some);
            &&& has == (true, true, true) ==> s@ == bits + dot + khz@ + dot + codec
            &&& has == (true, true, false) ==> s@ == bits + dot + khz@
            &&& has == (true, false, true) ==> s@ == bits + dot + codec
            &&& has == (false, true, true) ==> s@ == khz@ + dot + codec
            &&& has == (true, false, false) ==> s@ == bits
            &&& has == (false, true, false) ==> s@ == khz@
            &&& has == (false, false, true) ==> s@ == codec
            &&& has == (false, false, false) ==> s@.len() == 0
        }),
{
    let parts = and_part(
        and_part(and_part(Seq::empty(), bits_text(t.bits)), rate_text(t.sample_rate)),
        opt_text(t.codec),
    );
    lemma_joined_few(parts);
}

proof fn lemma_joined_few(parts: Seq<Seq<char>>)
    ensures
        parts.len() == 0 ==> joined(parts) == Seq::<char>::empty(),
        parts.len() == 1 ==> joined(parts) == parts[0],
        parts.len() == 2 ==> joined(parts) == parts[0] + dot() + parts[1],
        parts.len() == 3 ==> joined(parts) == parts[0] + dot() + parts[1] + dot() + parts[2],
        parts.len() == 4 ==> joined(parts) == parts[0] + dot() + parts[1] + dot() + parts[2]
            + dot() + parts[3],
{
    reveal_with_fuel(joined, 5);
}

/// A file is described by length, codec, rate and resolution, in this order, with dots between
/// those that are known.
pub proof fn law_format_is_described(
    t: Track,
    s: String,
    rate: u32,
    khz: String,
    ms: u64,
    len: String,
)
    requires
        call_ensures(Track::format_spec, (&t,), s),
        call_ensures(fmt_khz, (rate,), khz),
        call_ensures(fmt_dur_ms, (ms,), len),
        t.sample_rate is Some ==> t.sample_rate == Some(rate),
        t.duration_ms is Some ==> t.duration_ms == Some(ms),
    ensures
        ({
            let dot = " \u{b7} "@;
            let bits = decimal(t.bits->0 as nat) + "-bit"@;
            let codec = t.codec->0@;
            let has = (
                t.duration_ms is Some,
                t.codec is Some,
                t.sample_rate is Some,
                t.bits is Some,
            );
            &&& has == (true, true, true, true) ==> s@ == len@ + dot + codec + dot + khz@ + dot
                + bits
            &&& has == (false, true, true, true) ==> s@ == codec + dot + khz@ + dot + bits
            &&& has == (true, false, true, true) ==> s@ == len@ + dot + khz@ + dot + bits
            &&& has == (true, true, false, true) ==> s@ == len@ + dot + codec + dot + bits
            &&& has == (true, true, true, false) ==> s@ == len@ + dot + codec + dot + khz@
            &&& has == (true, true, false, false) ==> s@ == len@ + dot + codec
            &&& has == (true, false, true, false) ==> s@ == len@ + dot + khz@
            &&& has == (true, false, false, true) ==> s@ == len@ + dot + bits
            &&& has == (false, true, true, false) ==> s@ == codec + dot + khz@
            &&& has == (false, true, false, true) ==> s@ == codec + dot + bits
            &&& has == (false, false, true, true) ==> s@ == khz@ + dot + bits
            &&& has == (true, false, false, false) ==> s@ == len@
            &&& has == (false, true, false, false) ==> s@ == codec
            &&& has == (false, false, true, false) ==> s@ == khz@
            &&& has == (false, false, false, true) ==> s@ == bits
            &&& has == (false, false, false, false) ==> s@.len() == 0
        }),
{
    let parts = and_part(
        and_part(
            and_part(
                and_part(Seq::empty(), length_text(t.duration_ms)),
                opt_text(t.codec),
            ),
            rate_text(t.sample_rate),
        ),
        bits_text(t.bits),
    );
    lemma_joined_few(parts);
}

/// An album counts its tracks and adds up their lengths; its year and its cover are those of the
/// first track that has one.
pub proof fn law_album_adds_up_its_tracks(
    name: String,
    by: Option<String>,
    tracks: Vec<Track>,
    more: Vec<Track>,
    last: Track,
    a: Album,
    b: Album,
)
    requires
        call_ensures(Album::of_tracks, (name, by, &tracks), a),
        call_ensures(Album::of_tracks, (name, by, &more), b),
        more@ == tracks@.push(last),
        more@.len() <= u32::MAX,
        sum_ms(more@) <= u64::MAX,
    ensures
        b.album == name && b.album_artist == by,
        b.track_count == more@.len(),
        tracks@.len() == 0 ==> a.total_ms == 0 && a.year is None && a.art_hash is None
            && a.track_count == 0,
        last.duration_ms matches Some(ms) ==> b.total_ms == a.total_ms + ms,
        last.duration_ms is None ==> b.total_ms == a.total_ms,
        a.year is Some ==> b.year == a.year,
        a.year is None ==> b.year == last.year,
        a.art_hash is Some ==> b.art_hash == a.art_hash,
        a.art_hash is None ==> b.art_hash == last.art_hash,
{
    assert(more@.drop_last() =~= tracks@);
    lemma_sum_grows(more@, tracks@.len() as int);
    assert(more@.take(tracks@.len() as int) =~= tracks@);
}

/// Albums and folders are described by how many tracks they have, in the singular for one, and
/// how long these take; an album also by its year, if it is known.
pub proof fn law_counts_are_described(
    al: Album,
    s: String,
    f: Folder,
    g: String,
    len: String,
)
    requires
        call_ensures(Album::meta, (&al,), s),
        call_ensures(Folder::meta, (&f,), g),
        call_ensures(fmt_dur_ms, (al.total_ms,), len),
        f.track_count == al.track_count,
        f.total_ms == al.total_ms,
    ensures
        al.track_count == 1 ==> g@ == decimal(1) + " track"@ + " \u{b7} "@ + len@,
        al.track_count != 1 ==> g@ == decimal(al.track_count as nat) + " track"@ + "s"@
            + " \u{b7} "@ + len@,
        al.year is None ==> s@ == g@,
        al.year matches Some(y) ==> s@ == g@ + " \u{b7} "@ + signed_decimal(y as int),
{
    reveal_strlit("");
    assert(""@ =~= Seq::empty());
    let n = decimal(al.track_count as nat) + " track"@;
    assert(n + ""@ =~= n);
    let c = count_text(al.track_count as nat, al.total_ms as nat);
    assert(c + Seq::<char>::empty() =~= c);
    if al.year is Some {
        let y = signed_decimal(al.year->0 as int);
        assert(c + (dot() + y) =~= c + dot() + y);
    }
}

proof fn lemma_before_slashes(p: Seq<char>, e: int)
    requires
        0 <= e <= p.len(),
        forall|i: int| e <= i < p.len() ==> is_slash(#[trigger] p[i]),
        e > 0 ==> !is_slash(p[e - 1]),
    ensures
        before_slashes(p) == e,
    decreases p.len(),
{
    if e < p.len() {
        assert(is_slash(p[p.len() - 1]));
        lemma_before_slashes(p.drop_last(), e);
    }
}

proof fn lemma_behind_slash(p: Seq<char>, k: int)
    requires
        0 <= k <= p.len(),
        forall|i: int| k <= i < p.len() ==> !is_slash(#[trigger] p[i]),
        k > 0 ==> is_slash(p[k - 1]),
    ensures
        behind_slash(p) == k,
    decreases p.len(),
{
    if k < p.len() {
        assert(!is_slash(p[p.len() - 1]));
        lemma_behind_slash(p.drop_last(), k);
    }
}

/// A folder is shown by the last piece of its path, slashes of either kind at the end aside.
pub proof fn law_folder_is_shown_by_its_last_piece(
    f: Folder,
    s: &str,
    dir: Seq<char>,
    name: Seq<char>,
    tail: Seq<char>,
)
    requires
        call_ensures(Folder::name, (&f,), s),
        f.path@ == dir + name + tail,
        dir.len() > 0 ==> dir.last() == '/' || dir.last() == '\\',
        name.len() > 0,
        forall|i: int| 0 <= i < name.len() ==> name[i] != '/' && name[i] != '\\',
        forall|i: int| 0 <= i < tail.len() ==> tail[i] == '/' || tail[i] == '\\',
    ensures
        s@ == name,
{
    let p = f.path@;
    let k = dir.len() as int;
    let e = k + name.len();
    assert forall|i: int| e <= i < p.len() implies is_slash(#[trigger] p[i]) by {
        assert(p[i] == tail[i - e]);
    }
    assert(p[e - 1] == name[name.len() - 1]);
    lemma_before_slashes(p, e);
    let q = p.take(e);
    assert forall|i: int| k <= i < q.len() implies !is_slash(#[trigger] q[i]) by {
        assert(q[i] == name[i - k]);
    }
    if k > 0 {
        assert(q[k - 1] == dir[k - 1]);
    }
    lemma_behind_slash(q, k);
    assert(p.subrange(k, e) =~= name);
}

/// A scan has seen what it added, updated, moved and found unchanged; a new count starts at zero,
/// and lists show everything, by title, unless told otherwise.
pub proof fn law_seen_is_added_up(st: ScanStats, n: u64, z: ScanStats, f: Filter, s: Sort)
    requires
        call_ensures(ScanStats::total_seen, (&st,), n),
        call_ensures(ScanStats::default, (), z),
        call_ensures(Filter::default, (), f),
        call_ensures(Sort::default, (), s),
        st.added + st.updated + st.moved + st.unchanged <= u64::MAX,
    ensures
        n == st.added + st.updated + st.moved + st.unchanged,
        z.added == 0 && z.updated == 0 && z.moved == 0 && z.removed == 0 && z.unchanged == 0
            && z.errors == 0 && z.elapsed_ms == 0,
        f == Filter::All,
        s == Sort::Title,
{
}

/// A rate is shown in kilohertz: a whole number of them without a point, any other to the nearest
/// tenth.
pub proof fn law_rates_are_shown_in_kilohertz(rate: u32, s: String)
    requires
        call_ensures(fmt_khz, (rate,), s),
    ensures
        rate % 1000 == 0 ==> s@ == decimal(rate as nat / 1000) + " kHz"@,
        rate % 1000 != 0 ==> exists|t: nat|
            -50 <= t * 100 - rate <= 50 && #[trigger] shown_tenths(t) == s@,
{
    law_shown_rate_is_near(rate as nat);
    if rate % 1000 != 0 {
        let t = tenths(rate as nat);
        assert(shown_tenths(t) == s@);
    }
}

/// So many tenths of a kilohertz, in words.
pub open spec fn shown_tenths(t: nat) -> Seq<char> {
    decimal(t / 10) + "."@ + decimal(t % 10) + " kHz"@
}

/// A length is shown in hours, minutes and seconds, the hours only if there are any; minutes and
/// seconds behind a colon have two digits, and parts of a second are left out.
pub proof fn law_lengths_are_shown_to_the_second(ms: u64, h: nat, m: nat, sec: nat, s: String)
    requires
        call_ensures(fmt_dur_ms, (ms,), s),
        h * 3600 + m * 60 + sec == ms as nat / 1000,
        m < 60,
        sec < 60,
    ensures
        h == 0 ==> s@ == decimal(m) + ":"@ + seq![
            (48 + sec / 10) as char,
            (48 + sec % 10) as char,
        ],
        h > 0 ==> s@ == decimal(h) + ":"@ + seq![(48 + m / 10) as char, (48 + m % 10) as char]
            + ":"@ + seq![(48 + sec / 10) as char, (48 + sec % 10) as char],
{
    let secs = ms as nat / 1000;
    assert(secs / 3600 == h && secs % 3600 == m * 60 + sec);
    assert((secs % 3600) / 60 == m);
    assert(secs % 60 == sec);
    crate::text::lemma_two_digits(m);
    crate::text::lemma_two_digits(sec);
}

/// A copy is equal to what it was made from.
pub proof fn law_copies_are_equal(
    t: Track,
    u: Track,
    a: Album,
    b: Album,
    o: Option<String>,
    p: Option<String>,
)
    requires
        call_ensures(Track::clone, (&t,), u),
        call_ensures(Album::clone, (&a,), b),
        call_ensures(clone_opt, (&o,), p),
    ensures
        u == t,
        b == a,
        p == o,
{
}

proof fn lemma_scaled(n: nat, k: nat)
    requires
        0 < n,
        full_width() <= n * vstd::arithmetic::power2::pow2(k) < 2 * full_width(),
    ensures
        scaled(n) == n * vstd::arithmetic::power2::pow2(k),
    decreases k,
{
    vstd::arithmetic::power2::lemma2_to64();
    if k == 0 {
        assert(n * 1 == n);
    } else {
        let j = (k - 1) as nat;
        vstd::arithmetic::power2::lemma_pow2_unfold(k);
        let p = vstd::arithmetic::power2::pow2(j);
        assert(n * (2 * p) == (2 * n) * p) by (nonlinear_arith);
        assert(p >= 1) by {
            vstd::arithmetic::power2::lemma_pow2_pos(j);
        }
        assert(2 * n <= (2 * n) * p) by (nonlinear_arith)
            requires
                p >= 1,
        ;
        assert(n < full_width());
        lemma_scaled(2 * n, j);
    }
}

/// A rate in the middle between two tenths goes to the side on which the double lies that is
/// nearest to it: `m` is that double's fraction of fifty-three bits, `k` its exponent. If the
/// double is the rate itself, the tenth is even.
pub proof fn law_middle_goes_by_the_nearest_double(rate: u32, s: String, k: nat, m: nat, t: nat)
    requires
        call_ensures(fmt_khz, (rate,), s),
        rate % 100 == 50,
        4_503_599_627_370_496_000 <= rate * vstd::arithmetic::power2::pow2(k)
            < 9_007_199_254_740_992_000,
        -500 <= m * 1000 - rate * vstd::arithmetic::power2::pow2(k) <= 500,
        m * 1000 - rate * vstd::arithmetic::power2::pow2(k) == 500 || m * 1000 - rate
            * vstd::arithmetic::power2::pow2(k) == -500 ==> m % 2 == 0,
        t == (if m * 1000 > rate * vstd::arithmetic::power2::pow2(k) {
            rate as nat / 100 + 1
        } else if m * 1000 < rate * vstd::arithmetic::power2::pow2(k) {
            rate as nat / 100
        } else if (rate as nat / 100) % 2 == 0 {
            rate as nat / 100
        } else {
            rate as nat / 100 + 1
        }),
    ensures
        s@ == shown_tenths(t),
{
    let x = rate as nat * vstd::arithmetic::power2::pow2(k);
    lemma_scaled(rate as nat, k);
    assert(scaled(rate as nat) == x);
    assert(tenths(rate as nat) == t);
}

/// A path of slashes alone, or an empty one, is shown as it is.
pub proof fn law_root_is_shown_as_it_is(f: Folder, s: &str)
    requires
        call_ensures(Folder::name, (&f,), s),
        forall|i: int| 0 <= i < f.path@.len() ==> f.path@[i] == '/' || f.path@[i] == '\\',
    ensures
        s@ == f.path@,
{
    let p = f.path@;
    assert forall|i: int| 0 <= i < p.len() implies is_slash(#[trigger] p[i]) by {}
    lemma_before_slashes(p, 0);
}

/// Copies of artists and folders are equal to what they were made from.
pub proof fn law_artists_and_folders_copy(a: Artist, b: Artist, f: Folder, g: Folder)
    requires
        call_ensures(Artist::clone, (&a,), b),
        call_ensures(Folder::clone, (&f,), g),
    ensures
        b.name == a.name && b.album_count == a.album_count && b.track_count == a.track_count,
        g.path == f.path && g.track_count == f.track_count && g.total_ms == f.total_ms,
{
}

} // verus!
