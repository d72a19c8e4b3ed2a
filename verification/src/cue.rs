//! CUE sheets: one audio file, many tracks.
use crate::text::{
    char_is_space, chars_of, find_char, find_year, first_of, first_year, is_space, lines, next_line,
    numeral, parse_numeral, spells, string_of, trim_of, trim_start, trim_start_of, trimmed, upper,
    upper_of,
};
use vstd::prelude::*;
use vstd::string::*;
use vstd::utf8::{decode_utf8, valid_utf8};

verus! {

#[derive(Debug, Clone, PartialEq, Eq)]
pub struct CueTrack {
    pub number: u32,
    pub title: Option<String>,
    pub performer: Option<String>,
    pub start_ms: u64,
}

#[derive(Debug, Clone, PartialEq, Eq)]
pub struct CueFile {
    pub name: String,
    pub tracks: Vec<CueTrack>,
}

#[derive(Debug, Clone, PartialEq, Eq)]
pub struct CueSheet {
    pub title: Option<String>,
    pub performer: Option<String>,
    pub genre: Option<String>,
    pub date: Option<i32>,
    pub files: Vec<CueFile>,
}

/// The contents of a [`CueTrack`].
pub struct TrackView {
    pub number: nat,
    pub title: Option<Seq<char>>,
    pub performer: Option<Seq<char>>,
    pub start_ms: nat,
}

/// The contents of a [`CueFile`].
pub struct FileView {
    pub name: Seq<char>,
    pub tracks: Seq<TrackView>,
}

/// The contents of a [`CueSheet`].
pub struct SheetView {
    pub title: Option<Seq<char>>,
    pub performer: Option<Seq<char>>,
    pub genre: Option<Seq<char>>,
    pub date: Option<nat>,
    pub files: Seq<FileView>,
}

pub open spec fn opt_text(s: Option<String>) -> Option<Seq<char>> {
    match s {
        Some(t) => Some(t@),
        None => None,
    }
}

impl View for CueTrack {
    type V = TrackView;

    open spec fn view(&self) -> TrackView {
        TrackView {
            number: self.number as nat,
            title: opt_text(self.title),
            performer: opt_text(self.performer),
            start_ms: self.start_ms as nat,
        }
    }
}

pub open spec fn track_views(s: Seq<CueTrack>) -> Seq<TrackView> {
    s.map_values(|t: CueTrack| t@)
}

impl View for CueFile {
    type V = FileView;

    open spec fn view(&self) -> FileView {
        FileView { name: self.name@, tracks: track_views(self.tracks@) }
    }
}

pub open spec fn file_views(s: Seq<CueFile>) -> Seq<FileView> {
    s.map_values(|f: CueFile| f@)
}

impl View for CueSheet {
    type V = SheetView;

    open spec fn view(&self) -> SheetView {
        SheetView {
            title: opt_text(self.title),
            performer: opt_text(self.performer),
            genre: opt_text(self.genre),
            date: match self.date {
                Some(d) => Some(d as nat),
                None => None,
            },
            files: file_views(self.files@),
        }
    }
}

/// Where the first word ends.
pub open spec fn word_end(s: Seq<char>) -> int
    decreases s.len(),
{
    if s.len() == 0 || is_space(s[0]) {
        0
    } else {
        1 + word_end(s.skip(1))
    }
}

/// The first word of a line.
pub open spec fn first_word(s: Seq<char>) -> Seq<char> {
    trim_start(s).take(word_end(trim_start(s)))
}

/// What follows the first word, without the white space around it.
pub open spec fn after_word(s: Seq<char>) -> Seq<char> {
    trimmed(trim_start(s).skip(word_end(trim_start(s))))
}

/// Without the white space around it and the pair of double quotes inside that.
pub open spec fn unquoted(s: Seq<char>) -> Seq<char> {
    let t = trimmed(s);
    if t.len() >= 2 && t[0] == '"' && t.last() == '"' {
        t.subrange(1, t.len() - 1)
    } else {
        t
    }
}

/// The text without the white space around it, if anything is left.
pub open spec fn if_any(s: Seq<char>) -> Option<Seq<char>> {
    if trimmed(s).len() == 0 {
        None
    } else {
        Some(trimmed(s))
    }
}

/// The words that may stand behind a file name to say what it is.
pub open spec fn is_file_type(s: Seq<char>) -> bool {
    ||| s == "WAVE"@
    ||| s == "MP3"@
    ||| s == "AIFF"@
    ||| s == "FLAC"@
    ||| s == "BINARY"@
    ||| s == "MOTOROLA"@
}

/// The place of the last white space, or -1.
pub open spec fn last_space(s: Seq<char>) -> int
    decreases s.len(),
{
    if s.len() == 0 {
        -1
    } else if is_space(s.last()) {
        s.len() - 1
    } else {
        last_space(s.drop_last())
    }
}

/// The file that a `FILE` line names: what stands in quotes; else the line up to the type
/// of the file, if it ends in one; else all of it.
pub open spec fn named_file(rest: Seq<char>) -> Seq<char> {
    let r = trimmed(rest);
    let quote = first_of(r.skip(1), '"');
    let k = last_space(r);
    if r.len() > 0 && r[0] == '"' && quote < r.len() - 1 {
        r.subrange(1, 1 + quote)
    } else if k >= 0 && is_file_type(upper(r.skip(k + 1))) {
        trimmed(r.take(k))
    } else {
        r
    }
}

/// Piece `k` of a text cut at colons.
pub open spec fn colon_piece(s: Seq<char>, k: nat) -> Option<Seq<char>>
    decreases k,
{
    let i = first_of(s, ':');
    if k == 0 {
        Some(s.take(i))
    } else if i < s.len() {
        colon_piece(s.skip(i + 1), (k - 1) as nat)
    } else {
        None
    }
}

/// The number in piece `k` of a time; zero if there is none.
pub open spec fn time_part(s: Seq<char>, k: nat) -> nat {
    match colon_piece(s, k) {
        Some(p) => match numeral(trimmed(p), u64::MAX as nat) {
            Some(n) => n,
            None => 0,
        },
        None => 0,
    }
}

pub open spec fn two64() -> nat {
    0x1_0000_0000_0000_0000
}

/// The milliseconds of a `mm:ss:ff` time, seventy-five frames to the second, counted in 64
/// bits.
pub open spec fn index_ms(s: Seq<char>) -> nat {
    let mm = time_part(s, 0);
    let ss = time_part(s, 1);
    let ff = time_part(s, 2);
    (mm * 60_000 + ss * 1_000 + (ff * 1_000) % two64() / 75) % two64()
}

/// How far a sheet is read: what is known of it, the file that is open, the track that is
/// open.
pub struct Progress {
    pub sheet: SheetView,
    pub file: Option<FileView>,
    pub track: Option<TrackView>,
}

/// The open track goes into the open file; without one it is lost.
pub open spec fn close_track(p: Progress) -> Progress {
    Progress {
        file: match (p.file, p.track) {
            (Some(f), Some(t)) => Some(FileView { name: f.name, tracks: f.tracks.push(t) }),
            _ => p.file,
        },
        track: None,
        sheet: p.sheet,
    }
}

/// The open file goes into the sheet.
pub open spec fn close_file(p: Progress) -> Progress {
    match p.file {
        Some(f) => Progress {
            sheet: SheetView { files: p.sheet.files.push(f), ..p.sheet },
            file: None,
            track: p.track,
        },
        None => p,
    }
}

/// One line of a sheet.
pub open spec fn read_line(p: Progress, raw: Seq<char>) -> Progress {
    let line = trimmed(raw);
    let cmd = upper(first_word(line));
    let rest = after_word(line);
    if line.len() == 0 {
        p
    } else if cmd == "REM"@ {
        let key = upper(first_word(rest));
        let value = after_word(rest);
        if key == "DATE"@ {
            Progress { sheet: SheetView { date: first_year(unquoted(value)), ..p.sheet }, ..p }
        } else if key == "GENRE"@ {
            Progress { sheet: SheetView { genre: if_any(unquoted(value)), ..p.sheet }, ..p }
        } else {
            p
        }
    } else if cmd == "TITLE"@ {
        let t = if_any(unquoted(rest));
        match p.track {
            Some(tr) => Progress { track: Some(TrackView { title: t, ..tr }), ..p },
            None => Progress { sheet: SheetView { title: t, ..p.sheet }, ..p },
        }
    } else if cmd == "PERFORMER"@ {
        let t = if_any(unquoted(rest));
        match p.track {
            Some(tr) => Progress { track: Some(TrackView { performer: t, ..tr }), ..p },
            None => Progress { sheet: SheetView { performer: t, ..p.sheet }, ..p },
        }
    } else if cmd == "FILE"@ {
        let q = close_file(close_track(p));
        Progress { file: Some(FileView { name: named_file(rest), tracks: Seq::empty() }), ..q }
    } else if cmd == "TRACK"@ {
        let q = close_track(p);
        Progress {
            track: Some(
                TrackView {
                    number: match numeral(trimmed(first_word(rest)), u32::MAX as nat) {
                        Some(n) => n,
                        None => 0,
                    },
                    title: None,
                    performer: None,
                    start_ms: 0,
                },
            ),
            ..q
        }
    } else if cmd == "INDEX"@ {
        if trimmed(first_word(rest)) == "01"@ && p.track is Some {
            Progress {
                track: Some(
                    TrackView { start_ms: index_ms(trimmed(after_word(rest))), ..p.track->0 },
                ),
                ..p
            }
        } else {
            p
        }
    } else {
        p
    }
}

/// A run of lines.
pub open spec fn read_lines(p: Progress, ls: Seq<Seq<char>>) -> Progress
    decreases ls.len(),
{
    if ls.len() == 0 {
        p
    } else {
        read_lines(read_line(p, ls[0]), ls.skip(1))
    }
}

pub open spec fn blank() -> Progress {
    Progress {
        sheet: SheetView {
            title: None,
            performer: None,
            genre: None,
            date: None,
            files: Seq::empty(),
        },
        file: None,
        track: None,
    }
}

/// The sheet that a text describes.
pub open spec fn sheet_of(text: Seq<char>) -> SheetView {
    close_file(close_track(read_lines(blank(), lines(text)))).sheet
}

proof fn lemma_word_end(s: Seq<char>, k: int)
    requires
        0 <= k <= s.len(),
        forall|i: int| 0 <= i < k ==> !is_space(#[trigger] s[i]),
        k < s.len() ==> is_space(s[k]),
    ensures
        word_end(s) == k,
    decreases s.len(),
{
    if s.len() > 0 && k > 0 {
        assert(!is_space(s[0]));
        let t = s.skip(1);
        assert forall|i: int| 0 <= i < k - 1 implies !is_space(#[trigger] t[i]) by {
            assert(t[i] == s[i + 1]);
        }
        lemma_word_end(t, k - 1);
    }
}

/// The first word of a line and what follows it.
pub fn split_first(s: &[char]) -> (r: (&[char], &[char]))
    ensures
        r.0@ == first_word(s@),
        r.1@ == after_word(s@),
{
    let t = trim_start_of(s);
    let mut k: usize = 0;
    while k < t.len() && !char_is_space(t[k])
        invariant
            k <= t@.len(),
            forall|i: int| 0 <= i < k ==> !is_space(#[trigger] t@[i]),
        decreases t@.len() - k,
    {
        k = k + 1;
    }
    proof {
        lemma_word_end(t@, k as int);
    }
    let head = vstd::slice::slice_subrange(t, 0, k);
    let tail = vstd::slice::slice_subrange(t, k, t.len());
    assert(head@ =~= t@.take(k as int));
    assert(tail@ =~= t@.skip(k as int));
    (head, trim_of(tail))
}

/// The text inside the quotes, or the text itself.
pub fn unquote(s: &[char]) -> (r: &[char])
    ensures
        r@ == unquoted(s@),
{
    let t = trim_of(s);
    if t.len() >= 2 && t[0] == '"' && t[t.len() - 1] == '"' {
        vstd::slice::slice_subrange(t, 1, t.len() - 1)
    } else {
        t
    }
}

/// The text, if there is any.
pub fn non_empty(s: &[char]) -> (r: Option<String>)
    ensures
        opt_text(r) == if_any(s@),
{
    let t = trim_of(s);
    if t.len() == 0 {
        None
    } else {
        Some(string_of(t))
    }
}

fn is_type_word(s: &[char]) -> (r: bool)
    ensures
        r == is_file_type(s@),
{
    spells(s, "WAVE") || spells(s, "MP3") || spells(s, "AIFF") || spells(s, "FLAC") || spells(
        s,
        "BINARY",
    ) || spells(s, "MOTOROLA")
}

/// The file that a `FILE` line names.
pub fn file_name(rest: &[char]) -> (r: String)
    ensures
        r@ == named_file(rest@),
{
    let r = trim_of(rest);
    if r.len() > 0 && r[0] == '"' {
        let after = vstd::slice::slice_subrange(r, 1, r.len());
        assert(after@ =~= r@.skip(1));
        let q: usize = find_char(after, '"');
        if q < after.len() {
            let name = vstd::slice::slice_subrange(after, 0, q);
            assert(name@ =~= r@.subrange(1, 1 + q));
            return string_of(name);
        }
    }
    let mut k: usize = r.len();
    assert(r@.take(k as int) =~= r@);
    while k > 0 && !char_is_space(r[k - 1])
        invariant
            k <= r@.len(),
            last_space(r@) == last_space(r@.take(k as int)),
        decreases k,
    {
        assert(r@.take(k as int).last() == r@[k - 1]);
        assert(r@.take(k as int).drop_last() =~= r@.take(k - 1));
        k = k - 1;
    }
    if k > 0 {
        assert(r@.take(k as int).last() == r@[k - 1]);
        assert(last_space(r@) == k - 1);
        let last = vstd::slice::slice_subrange(r, k, r.len());
        assert(last@ =~= r@.skip(k as int));
        let up = upper_of(last);
        if is_type_word(up.as_slice()) {
            let name = vstd::slice::slice_subrange(r, 0, k - 1);
            assert(name@ =~= r@.take(k - 1));
            return string_of(trim_of(name));
        }
    }
    string_of(r)
}

fn time_number(s: &[char]) -> (n: u64)
    ensures
        n == (match numeral(trimmed(s@), u64::MAX as nat) {
            Some(n) => n,
            None => 0,
        }),
{
    match parse_numeral(trim_of(s), u64::MAX) {
        Some(n) => n,
        None => 0,
    }
}

/// The number in the piece up to the next colon, and the rest behind it.
fn take_part(s: Option<&[char]>) -> (r: (u64, Option<&[char]>))
    ensures
        match s {
            None => r.0 == 0 && r.1 is None,
            Some(t) => {
                &&& r.0 == time_part(t@, 0)
                &&& match r.1 {
                    Some(u) => first_of(t@, ':') < t@.len() && u@ == t@.skip(
                        first_of(t@, ':') + 1,
                    ),
                    None => first_of(t@, ':') >= t@.len(),
                }
            },
        },
{
    match s {
        None => (0, None),
        Some(t) => {
            let i: usize = find_char(t, ':');
            let head = vstd::slice::slice_subrange(t, 0, i);
            assert(head@ =~= t@.take(i as int));
            let n: u64 = time_number(head);
            if i < t.len() {
                let rest = vstd::slice::slice_subrange(t, i + 1, t.len());
                assert(rest@ =~= t@.skip(i + 1));
                (n, Some(rest))
            } else {
                (n, None)
            }
        },
    }
}

/// The milliseconds of a `mm:ss:ff` time.
pub fn parse_index_chars(t: &[char]) -> (ms: u64)
    ensures
        ms == index_ms(t@),
{
    let (mm, r1) = take_part(Some(t));
    let (ss, r2) = take_part(r1);
    let (ff, r3) = take_part(r2);
    proof {
        reveal_with_fuel(colon_piece, 3);
    }
    let frames: u128 = (ff as u128 * 1_000) % 0x1_0000_0000_0000_0000 / 75;
    let sum: u128 = mm as u128 * 60_000 + ss as u128 * 1_000 + frames;
    (sum % 0x1_0000_0000_0000_0000) as u64
}

/// The milliseconds of a `mm:ss:ff` time.
pub fn parse_index_ms(t: &str) -> (ms: u64)
    ensures
        ms == index_ms(t@),
{
    let c = chars_of(t);
    parse_index_chars(c.as_slice())
}

/// The year in a text: its first four digits in a row.
pub fn parse_year(s: &[char]) -> (r: Option<i32>)
    ensures
        match r {
            Some(y) => y >= 0 && first_year(s@) == Some(y as nat),
            None => first_year(s@) is None,
        },
{
    find_year(s)
}

/// Moves the open track into the open file; without one it is lost.
pub fn flush_track(file: &mut Option<CueFile>, track: &mut Option<CueTrack>)
    ensures
        opt_file(*final(file)) == (match (opt_file(*old(file)), opt_track(*old(track))) {
            (Some(f), Some(t)) => Some(FileView { name: f.name, tracks: f.tracks.push(t) }),
            _ => opt_file(*old(file)),
        }),
        *final(track) is None,
{
    match (file.take(), track.take()) {
        (Some(mut f), Some(t)) => {
            let ghost before = f.tracks@;
            f.tracks.push(t);
            assert(track_views(f.tracks@) =~= track_views(before).push(t@));
            *file = Some(f);
        },
        (f, _) => {
            *file = f;
        },
    }
}

pub open spec fn opt_file(f: Option<CueFile>) -> Option<FileView> {
    match f {
        Some(f) => Some(f@),
        None => None,
    }
}

pub open spec fn opt_track(t: Option<CueTrack>) -> Option<TrackView> {
    match t {
        Some(t) => Some(t@),
        None => None,
    }
}

pub open spec fn progress_of(
    sheet: CueSheet,
    file: Option<CueFile>,
    track: Option<CueTrack>,
) -> Progress {
    Progress { sheet: sheet@, file: opt_file(file), track: opt_track(track) }
}

fn flush_file(sheet: &mut CueSheet, file: &mut Option<CueFile>)
    requires
        old(sheet).date matches Some(d) ==> d >= 0,
    ensures
        final(sheet)@ == (match opt_file(*old(file)) {
            Some(f) => SheetView { files: old(sheet)@.files.push(f), ..old(sheet)@ },
            None => old(sheet)@,
        }),
        final(sheet).date == old(sheet).date,
        *final(file) is None,
{
    if let Some(f) = file.take() {
        let ghost before = sheet.files@;
        sheet.files.push(f);
        assert(file_views(sheet.files@) =~= file_views(before).push(f@));
    }
}

/// Reads one line of a sheet.
fn apply_line(
    sheet: &mut CueSheet,
    cur_file: &mut Option<CueFile>,
    cur_track: &mut Option<CueTrack>,
    raw: &[char],
)
    requires
        old(sheet).date matches Some(d) ==> d >= 0,
    ensures
        final(sheet).date matches Some(d) ==> d >= 0,
        progress_of(*final(sheet), *final(cur_file), *final(cur_track)) == read_line(
            progress_of(*old(sheet), *old(cur_file), *old(cur_track)),
            raw@,
        ),
{
    let ghost before = progress_of(*sheet, *cur_file, *cur_track);
    let line = trim_of(raw);
    if line.len() == 0 {
        return;
    }
    proof {
        lemma_commands_differ();
    }
    let (word, rest) = split_first(line);
    let up = upper_of(word);
    let cmd = up.as_slice();
    if spells(cmd, "REM") {
        let (k, v) = split_first(rest);
        let key = upper_of(k);
        if spells(key.as_slice(), "DATE") {
            sheet.date = parse_year(unquote(v));
        } else if spells(key.as_slice(), "GENRE") {
            sheet.genre = non_empty(unquote(v));
        }
    } else if spells(cmd, "TITLE") {
        let t = non_empty(unquote(rest));
        match cur_track.take() {
            Some(mut tr) => {
                tr.title = t;
                *cur_track = Some(tr);
            },
            None => {
                sheet.title = t;
            },
        }
    } else if spells(cmd, "PERFORMER") {
        let t = non_empty(unquote(rest));
        match cur_track.take() {
            Some(mut tr) => {
                tr.performer = t;
                *cur_track = Some(tr);
            },
            None => {
                sheet.performer = t;
            },
        }
    } else if spells(cmd, "FILE") {
        flush_track(cur_file, cur_track);
        flush_file(sheet, cur_file);
        let f = CueFile { name: file_name(rest), tracks: Vec::new() };
        assert(f@.tracks =~= Seq::empty());
        *cur_file = Some(f);
    } else if spells(cmd, "TRACK") {
        flush_track(cur_file, cur_track);
        let (num, _ty) = split_first(rest);
        let number: u32 = match parse_numeral(trim_of(num), u32::MAX as u64) {
            Some(n) => n as u32,
            None => 0,
        };
        *cur_track = Some(CueTrack { number, title: None, performer: None, start_ms: 0 });
    } else if spells(cmd, "INDEX") {
        let (idx, time) = split_first(rest);
        if spells(trim_of(idx), "01") {
            match cur_track.take() {
                Some(mut tr) => {
                    tr.start_ms = parse_index_chars(trim_of(time));
                    *cur_track = Some(tr);
                },
                None => {},
            }
        }
    }
}

proof fn lemma_commands_differ()
    ensures
        "REM"@ != "TITLE"@,
        "REM"@ != "PERFORMER"@,
        "REM"@ != "FILE"@,
        "REM"@ != "TRACK"@,
        "REM"@ != "INDEX"@,
        "TITLE"@ != "PERFORMER"@,
        "TITLE"@ != "FILE"@,
        "TITLE"@ != "TRACK"@,
        "TITLE"@ != "INDEX"@,
        "PERFORMER"@ != "FILE"@,
        "PERFORMER"@ != "TRACK"@,
        "PERFORMER"@ != "INDEX"@,
        "FILE"@ != "TRACK"@,
        "FILE"@ != "INDEX"@,
        "TRACK"@ != "INDEX"@,
        "DATE"@ != "GENRE"@,
{
    reveal_strlit("REM");
    reveal_strlit("TITLE");
    reveal_strlit("PERFORMER");
    reveal_strlit("FILE");
    reveal_strlit("TRACK");
    reveal_strlit("INDEX");
    reveal_strlit("DATE");
    reveal_strlit("GENRE");
    assert("REM"@.len() == 3);
    assert("PERFORMER"@.len() == 9);
    assert("TITLE"@.len() == 5 && "TITLE"@[0] == 'T' && "TITLE"@[1] == 'I');
    assert("TRACK"@.len() == 5 && "TRACK"@[0] == 'T' && "TRACK"@[1] == 'R');
    assert("INDEX"@.len() == 5 && "INDEX"@[0] == 'I');
    assert("FILE"@.len() == 4);
    assert("DATE"@.len() == 4);
    assert("GENRE"@.len() == 5);
}

impl Default for CueSheet {
    fn default() -> (s: Self)
        ensures
            s@ == blank().sheet,
            s.date is None,
    {
        let s = CueSheet {
            title: None,
            performer: None,
            genre: None,
            date: None,
            files: Vec::new(),
        };
        assert(s@.files =~= Seq::empty());
        s
    }
}

impl CueSheet {
    /// Reads a sheet. Commands are known in any case; unknown lines are passed over.
    pub fn parse(text: &str) -> (s: Self)
        ensures
            s@ == sheet_of(text@),
            s.date matches Some(d) ==> d >= 0,
    {
        let mut sheet = CueSheet::default();
        let mut cur_file: Option<CueFile> = None;
        let mut cur_track: Option<CueTrack> = None;
        let chars = chars_of(text);
        let mut at: usize = 0;
        assert(chars@.skip(0) =~= text@);
        while at < chars.len()
            invariant
                chars@ == text@,
                at <= chars@.len(),
                sheet.date matches Some(d) ==> d >= 0,
                read_lines(blank(), lines(text@)) == read_lines(
                    progress_of(sheet, cur_file, cur_track),
                    lines(chars@.skip(at as int)),
                ),
            decreases chars@.len() - at,
        {
            let (line, next) = next_line(chars.as_slice(), at);
            let ghost ls = lines(chars@.skip(at as int));
            assert(ls[0] == line@);
            assert(ls.skip(1) =~= lines(chars@.skip(next as int)));
            apply_line(&mut sheet, &mut cur_file, &mut cur_track, line);
            at = next;
        }
        assert(chars@.skip(at as int) =~= Seq::empty());
        flush_track(&mut cur_file, &mut cur_track);
        flush_file(&mut sheet, &mut cur_file);
        sheet
    }
}

/// The characters of a byte string read as UTF-8, every fault replaced by U+FFFD.
pub uninterp spec fn utf8_lossy(bytes: Seq<u8>) -> Seq<char>;

/// `String::from_utf8_lossy` reads bytes as UTF-8, replacing what is not. Bytes that are
/// valid UTF-8 are decoded as they stand.
#[verifier::external_body]
fn from_utf8_lossy(bytes: &[u8]) -> (s: String)
    ensures
        s@ == utf8_lossy(bytes@),
        valid_utf8(bytes@) ==> s@ == decode_utf8(bytes@),
{
    String::from_utf8_lossy(bytes).into_owned()
}

/// Without a byte order mark.
pub open spec fn without_bom(b: Seq<u8>) -> Seq<u8> {
    if b.len() >= 3 && b[0] == 0xEF && b[1] == 0xBB && b[2] == 0xBF {
        b.skip(3)
    } else {
        b
    }
}

/// The text of a sheet's bytes.
pub fn decode_text(bytes: &[u8]) -> (s: String)
    ensures
        s@ == utf8_lossy(without_bom(bytes@)),
        valid_utf8(without_bom(bytes@)) ==> s@ == decode_utf8(without_bom(bytes@)),
{
    if bytes.len() >= 3 && bytes[0] == 0xEF && bytes[1] == 0xBB && bytes[2] == 0xBF {
        let rest = vstd::slice::slice_subrange(bytes, 3, bytes.len());
        assert(rest@ =~= without_bom(bytes@));
        from_utf8_lossy(rest)
    } else {
        from_utf8_lossy(bytes)
    }
}

/// Some file of the sheet has a track.
pub open spec fn has_tracks(s: SheetView) -> bool {
    exists|i: int| 0 <= i < s.files.len() && (#[trigger] s.files[i]).tracks.len() > 0
}

/// The sheet, if it is of any use.
pub fn keep_usable(sheet: CueSheet) -> (r: Option<CueSheet>)
    ensures
        r == (if has_tracks(sheet@) {
            Some(sheet)
        } else {
            None
        }),
{
    for i in 0..sheet.files.len()
        invariant
            forall|j: int| 0 <= j < i ==> (#[trigger] sheet@.files[j]).tracks.len() == 0,
    {
        assert(sheet@.files[i as int] == sheet.files@[i as int]@);
        if sheet.files[i].tracks.len() > 0 {
            return Some(sheet);
        }
    }
    None
}

/// Reads the bytes of a sheet. One without a single track is none.
pub fn parse_file(bytes: &[u8]) -> (r: Option<CueSheet>)
    ensures
        ({
            let s = sheet_of(utf8_lossy(without_bom(bytes@)));
            &&& r is Some <==> has_tracks(s)
            &&& r matches Some(sheet) ==> sheet@ == s
        }),
{
    let text = decode_text(bytes);
    keep_usable(CueSheet::parse(text.as_str()))
}

/// A blank line changes nothing.
pub proof fn law_blank_lines_are_ignored(p: Progress, raw: Seq<char>)
    requires
        forall|i: int| 0 <= i < raw.len() ==> is_space(#[trigger] raw[i]),
    ensures
        read_line(p, raw) == p,
{
    lemma_all_space(raw);
}

proof fn lemma_all_space(s: Seq<char>)
    requires
        forall|i: int| 0 <= i < s.len() ==> is_space(#[trigger] s[i]),
    ensures
        trim_start(s).len() == 0,
        trimmed(s).len() == 0,
    decreases s.len(),
{
    if s.len() > 0 {
        assert(is_space(s[0]));
        let t = s.skip(1);
        assert forall|i: int| 0 <= i < t.len() implies is_space(#[trigger] t[i]) by {
            assert(t[i] == s[i + 1]);
        }
        lemma_all_space(t);
    }
}

/// A time that is written in full and fits is taken to the millisecond: minutes, seconds,
/// and seventy-fifths rounded down.
pub proof fn law_index_is_exact(s: Seq<char>)
    requires
        time_part(s, 0) * 60_000 + time_part(s, 1) * 1_000 + time_part(s, 2) * 1_000
            <= u64::MAX,
    ensures
        index_ms(s) == time_part(s, 0) * 60_000 + time_part(s, 1) * 1_000 + time_part(s, 2) * 1_000
            / 75,
{
}

/// Line `k` is a `word` line: that is its first word, in any case.
pub open spec fn says(ls: Seq<Seq<char>>, k: int, word: Seq<char>) -> bool {
    upper(first_word(trimmed(ls[k]))) == word
}

/// What stands behind the first word of line `k`.
pub open spec fn value(ls: Seq<Seq<char>>, k: int) -> Seq<char> {
    after_word(trimmed(ls[k]))
}

/// Line `k` is a `REM` line about `word`.
pub open spec fn remarks(ls: Seq<Seq<char>>, k: int, word: Seq<char>) -> bool {
    says(ls, k, "REM"@) && upper(first_word(value(ls, k))) == word
}

/// Line `k` gives a start time: `INDEX 01`.
pub open spec fn starts(ls: Seq<Seq<char>>, k: int) -> bool {
    says(ls, k, "INDEX"@) && trimmed(first_word(value(ls, k))) == "01"@
}

/// The `word` lines from line `i` up to line `j`.
pub open spec fn count(ls: Seq<Seq<char>>, word: Seq<char>, i: int, j: int) -> nat
    decreases j - i,
{
    if j <= i {
        0
    } else {
        count(ls, word, i, j - 1) + if says(ls, j - 1, word) {
            1nat
        } else {
            0nat
        }
    }
}

/// Line `k` stands in a track: behind a `TRACK` line with no `FILE` line in between.
pub open spec fn in_track(ls: Seq<Seq<char>>, k: int) -> bool {
    exists|i: int|
        0 <= i < k && #[trigger] says(ls, i, "TRACK"@) && forall|j: int|
            i < j < k ==> !#[trigger] says(ls, j, "FILE"@)
}

proof fn lemma_no_command(s: Seq<char>)
    requires
        trimmed(s).len() == 0,
    ensures
        upper(first_word(trimmed(s))).len() == 0,
{
    let t = trimmed(s);
    assert(trim_start(t).len() == 0);
    assert(first_word(t).len() == 0);
    assert(upper(first_word(t)).len() == 0);
}

/// A `TITLE` or `PERFORMER` line says something of the open track, if there is one, and else of
/// the sheet; everything else is left as it is, the other of the two included.
pub proof fn law_titles_go_to_the_open_track(p: Progress, raw: Seq<char>)
    requires
        says(seq![raw], 0, "TITLE"@) || says(seq![raw], 0, "PERFORMER"@),
    ensures
        ({
            let q = read_line(p, raw);
            let t = if_any(unquoted(value(seq![raw], 0)));
            let title = says(seq![raw], 0, "TITLE"@);
            &&& q.file == p.file
            &&& q.sheet.files == p.sheet.files
            &&& q.sheet.date == p.sheet.date
            &&& q.sheet.genre == p.sheet.genre
            &&& p.track matches Some(old_track) ==> {
                &&& q.sheet == p.sheet
                &&& q.track matches Some(track)
                &&& track.number == old_track.number
                &&& track.start_ms == old_track.start_ms
                &&& track.title == (if title {
                    t
                } else {
                    old_track.title
                })
                &&& track.performer == (if title {
                    old_track.performer
                } else {
                    t
                })
            }
            &&& p.track is None ==> {
                &&& q.track is None
                &&& q.sheet.title == (if title {
                    t
                } else {
                    p.sheet.title
                })
                &&& q.sheet.performer == (if title {
                    p.sheet.performer
                } else {
                    t
                })
            }
        }),
{
    lemma_commands_differ();
    reveal_strlit("TITLE");
    reveal_strlit("PERFORMER");
    assert(seq![raw][0] == raw);
    if trimmed(raw).len() == 0 {
        lemma_no_command(raw);
    }
}

/// A `TRACK` line ends the open track and opens one of its own, which has its number and
/// nothing else yet. An `INDEX 01` line gives the open track its start. Neither touches the
/// sheet.
pub proof fn law_tracks_open_and_start(p: Progress, raw: Seq<char>)
    requires
        says(seq![raw], 0, "TRACK"@) || says(seq![raw], 0, "INDEX"@),
    ensures
        ({
            let q = read_line(p, raw);
            let v = value(seq![raw], 0);
            &&& q.sheet == p.sheet
            &&& says(seq![raw], 0, "TRACK"@) ==> {
                &&& q.track matches Some(t)
                &&& t.title is None
                &&& t.performer is None
                &&& t.start_ms == 0
                &&& match numeral(trimmed(first_word(v)), u32::MAX as nat) {
                    Some(n) => t.number == n,
                    None => t.number == 0,
                }
                &&& p.file is None ==> q.file is None
                &&& p.file matches Some(f) ==> {
                    &&& q.file matches Some(g)
                    &&& g.name == f.name
                    &&& g.tracks == (if p.track is Some {
                        f.tracks.push(p.track->0)
                    } else {
                        f.tracks
                    })
                }
            }
            &&& says(seq![raw], 0, "INDEX"@) ==> {
                &&& q.file == p.file
                &&& p.track is None || !starts(seq![raw], 0) ==> q.track == p.track
                &&& p.track matches Some(old_track) ==> {
                    &&& q.track matches Some(t)
                    &&& t.number == old_track.number
                    &&& t.title == old_track.title
                    &&& t.performer == old_track.performer
                    &&& starts(seq![raw], 0) ==> t.start_ms == index_ms(trimmed(after_word(v)))
                }
            }
        }),
{
    lemma_commands_differ();
    reveal_strlit("TRACK");
    reveal_strlit("INDEX");
    assert(seq![raw][0] == raw);
    if trimmed(raw).len() == 0 {
        lemma_no_command(raw);
    }
}

/// A `FILE` line ends the open track and the open file and opens a file of its own; a `REM`
/// line gives the sheet its date or its genre. Lines of any other kind say nothing.
pub proof fn law_files_and_remarks(p: Progress, raw: Seq<char>)
    ensures
        ({
            let q = read_line(p, raw);
            let ls = seq![raw];
            &&& says(ls, 0, "FILE"@) ==> {
                &&& q.track is None
                &&& q.file matches Some(g)
                &&& g.name == named_file(value(ls, 0))
                &&& g.tracks.len() == 0
                &&& q.sheet.title == p.sheet.title
                &&& q.sheet.performer == p.sheet.performer
                &&& q.sheet.date == p.sheet.date
                &&& q.sheet.genre == p.sheet.genre
                &&& p.file is None ==> q.sheet.files == p.sheet.files
                &&& p.file matches Some(f) ==> q.sheet.files == p.sheet.files.push(
                    FileView {
                        name: f.name,
                        tracks: if p.track is Some {
                            f.tracks.push(p.track->0)
                        } else {
                            f.tracks
                        },
                    },
                )
            }
            &&& says(ls, 0, "REM"@) ==> {
                &&& q.track == p.track
                &&& q.file == p.file
                &&& q.sheet.title == p.sheet.title
                &&& q.sheet.performer == p.sheet.performer
                &&& q.sheet.files == p.sheet.files
                &&& q.sheet.date == (if remarks(ls, 0, "DATE"@) {
                    first_year(unquoted(after_word(value(ls, 0))))
                } else {
                    p.sheet.date
                })
                &&& q.sheet.genre == (if remarks(ls, 0, "GENRE"@) {
                    if_any(unquoted(after_word(value(ls, 0))))
                } else {
                    p.sheet.genre
                })
            }
            &&& !says(ls, 0, "FILE"@) && !says(ls, 0, "REM"@) && !says(ls, 0, "TITLE"@) && !says(
                ls,
                0,
                "PERFORMER"@,
            ) && !says(ls, 0, "TRACK"@) && !says(ls, 0, "INDEX"@) ==> q == p
        }),
{
    lemma_commands_differ();
    reveal_strlit("FILE");
    reveal_strlit("REM");
    assert(seq![raw][0] == raw);
    if trimmed(raw).len() == 0 {
        lemma_no_command(raw);
    }
}

proof fn lemma_read_last(p: Progress, ls: Seq<Seq<char>>, line: Seq<char>)
    ensures
        read_lines(p, ls.push(line)) == read_line(read_lines(p, ls), line),
    decreases ls.len(),
{
    let all = ls.push(line);
    if ls.len() == 0 {
        assert(all.skip(1) =~= Seq::empty());
        assert(read_lines(read_line(p, line), all.skip(1)) == read_line(p, line));
    } else {
        assert(all[0] == ls[0]);
        assert(all.skip(1) =~= ls.skip(1).push(line));
        lemma_read_last(read_line(p, ls[0]), ls.skip(1), line);
    }
}

/// How far a sheet is read behind its first `j` lines.
spec fn at(ls: Seq<Seq<char>>, j: int) -> Progress {
    read_lines(blank(), ls.take(j))
}

proof fn lemma_at(ls: Seq<Seq<char>>, j: int)
    requires
        0 <= j < ls.len(),
    ensures
        at(ls, j + 1) == read_line(at(ls, j), ls[j]),
        at(ls, 0) == blank(),
{
    assert(ls.take(j + 1) =~= ls.take(j).push(ls[j]));
    lemma_read_last(blank(), ls.take(j), ls[j]);
    assert(ls.take(0) =~= Seq::empty());
}

/// What one more line does, by its kind.
proof fn lemma_step(ls: Seq<Seq<char>>, j: int)
    requires
        0 <= j < ls.len(),
    ensures
        ({
            let p = at(ls, j);
            let q = at(ls, j + 1);
            &&& says(ls, j, "FILE"@) ==> q.track is None && q.file == Some(
                FileView { name: named_file(value(ls, j)), tracks: Seq::empty() },
            ) && q.sheet == close_file(close_track(p)).sheet
            &&& says(ls, j, "TRACK"@) ==> q.sheet == p.sheet && q.file == close_track(p).file
                && q.track == Some(
                TrackView {
                    number: match numeral(
                        trimmed(first_word(value(ls, j))),
                        u32::MAX as nat,
                    ) {
                        Some(n) => n,
                        None => 0,
                    },
                    title: None,
                    performer: None,
                    start_ms: 0,
                },
            )
            &&& !says(ls, j, "FILE"@) && !says(ls, j, "TRACK"@) ==> {
                &&& q.file == p.file
                &&& q.sheet.files == p.sheet.files
                &&& q.track is Some <==> p.track is Some
                &&& p.track matches Some(t) ==> q.track == Some(
                    TrackView {
                        number: t.number,
                        title: if says(ls, j, "TITLE"@) {
                            if_any(unquoted(value(ls, j)))
                        } else {
                            t.title
                        },
                        performer: if says(ls, j, "PERFORMER"@) {
                            if_any(unquoted(value(ls, j)))
                        } else {
                            t.performer
                        },
                        start_ms: if starts(ls, j) {
                            index_ms(trimmed(after_word(value(ls, j))))
                        } else {
                            t.start_ms
                        },
                    },
                )
            }
            &&& q.sheet.title == (if says(ls, j, "TITLE"@) && p.track is None {
                if_any(unquoted(value(ls, j)))
            } else {
                p.sheet.title
            })
            &&& q.sheet.performer == (if says(ls, j, "PERFORMER"@) && p.track is None {
                if_any(unquoted(value(ls, j)))
            } else {
                p.sheet.performer
            })
            &&& q.sheet.date == (if remarks(ls, j, "DATE"@) {
                first_year(unquoted(after_word(value(ls, j))))
            } else {
                p.sheet.date
            })
            &&& q.sheet.genre == (if remarks(ls, j, "GENRE"@) {
                if_any(unquoted(after_word(value(ls, j))))
            } else {
                p.sheet.genre
            })
        }),
{
    lemma_at(ls, j);
    lemma_commands_differ();
    reveal_strlit("FILE");
    reveal_strlit("REM");
    reveal_strlit("TITLE");
    reveal_strlit("PERFORMER");
    reveal_strlit("TRACK");
    reveal_strlit("INDEX");
    if trimmed(ls[j]).len() == 0 {
        lemma_no_command(ls[j]);
    }
}

proof fn lemma_in_track(ls: Seq<Seq<char>>, j: int)
    requires
        0 <= j <= ls.len(),
    ensures
        at(ls, j).track is Some <==> in_track(ls, j),
    decreases j,
{
    lemma_commands_differ();
    if j == 0 {
        if ls.len() > 0 {
            lemma_at(ls, 0);
        } else {
            assert(ls.take(0) =~= Seq::empty());
        }
    } else {
        lemma_in_track(ls, j - 1);
        lemma_step(ls, j - 1);
        if says(ls, j - 1, "TRACK"@) {
            assert(in_track(ls, j));
        } else if says(ls, j - 1, "FILE"@) {
            if in_track(ls, j) {
                let i = choose|i: int|
                    0 <= i < j && #[trigger] says(ls, i, "TRACK"@) && forall|k: int|
                        i < k < j ==> !#[trigger] says(ls, k, "FILE"@);
                assert(i < j - 1);
                assert(!says(ls, j - 1, "FILE"@));
            }
        } else {
            if in_track(ls, j) {
                let i = choose|i: int|
                    0 <= i < j && #[trigger] says(ls, i, "TRACK"@) && forall|k: int|
                        i < k < j ==> !#[trigger] says(ls, k, "FILE"@);
                assert(i < j - 1);
                assert(in_track(ls, j - 1));
            }
            if in_track(ls, j - 1) {
                let i = choose|i: int|
                    0 <= i < j - 1 && #[trigger] says(ls, i, "TRACK"@) && forall|k: int|
                        i < k < j - 1 ==> !#[trigger] says(ls, k, "FILE"@);
                assert(in_track(ls, j));
            }
        }
    }
}

proof fn lemma_sheet_field(ls: Seq<Seq<char>>, k: int, j: int)
    requires
        0 <= k < j <= ls.len(),
    ensures
        says(ls, k, "TITLE"@) && !in_track(ls, k) && (forall|i: int|
            k < i < j && #[trigger] says(ls, i, "TITLE"@) ==> in_track(ls, i)) ==> at(
            ls,
            j,
        ).sheet.title == if_any(unquoted(value(ls, k))),
        says(ls, k, "PERFORMER"@) && !in_track(ls, k) && (forall|i: int|
            k < i < j && #[trigger] says(ls, i, "PERFORMER"@) ==> in_track(ls, i)) ==> at(
            ls,
            j,
        ).sheet.performer == if_any(unquoted(value(ls, k))),
        remarks(ls, k, "DATE"@) && (forall|i: int|
            k < i < j ==> !#[trigger] remarks(ls, i, "DATE"@)) ==> at(ls, j).sheet.date
            == first_year(unquoted(after_word(value(ls, k)))),
        remarks(ls, k, "GENRE"@) && (forall|i: int|
            k < i < j ==> !#[trigger] remarks(ls, i, "GENRE"@)) ==> at(ls, j).sheet.genre == if_any(
            unquoted(after_word(value(ls, k))),
        ),
    decreases j,
{
    lemma_in_track(ls, j - 1);
    lemma_step(ls, j - 1);
    if k < j - 1 {
        lemma_sheet_field(ls, k, j - 1);
    }
}

proof fn lemma_sheet_untold(ls: Seq<Seq<char>>, j: int)
    requires
        0 <= j <= ls.len(),
    ensures
        (forall|i: int| 0 <= i < j && #[trigger] says(ls, i, "TITLE"@) ==> in_track(ls, i)) ==> at(
            ls,
            j,
        ).sheet.title is None,
        (forall|i: int| 0 <= i < j && #[trigger] says(ls, i, "PERFORMER"@) ==> in_track(ls, i))
            ==> at(ls, j).sheet.performer is None,
        (forall|i: int| 0 <= i < j ==> !#[trigger] remarks(ls, i, "DATE"@)) ==> at(
            ls,
            j,
        ).sheet.date is None,
        (forall|i: int| 0 <= i < j ==> !#[trigger] remarks(ls, i, "GENRE"@)) ==> at(
            ls,
            j,
        ).sheet.genre is None,
    decreases j,
{
    if j == 0 {
        assert(ls.take(0) =~= Seq::empty());
    } else {
        lemma_in_track(ls, j - 1);
        lemma_step(ls, j - 1);
        lemma_sheet_untold(ls, j - 1);
    }
}

/// What is said of a sheet outside its tracks is said of the sheet: its title and performer
/// are those of the last such line that stands in no track, whatever the tracks have; its date
/// and genre are those of the last such remark. What no line says is unknown.
pub proof fn law_sheet_has_what_stands_outside_tracks(text: &str, s: CueSheet, k: int)
    requires
        call_ensures(CueSheet::parse, (text,), s),
        0 <= k < lines(text@).len(),
    ensures
        ({
            let ls = lines(text@);
            let v = if_any(unquoted(value(ls, k)));
            let n = ls.len() as int;
            &&& says(ls, k, "TITLE"@) && !in_track(ls, k) && (forall|i: int|
                k < i < n && #[trigger] says(ls, i, "TITLE"@) ==> in_track(ls, i)) ==> opt_text(
                s.title,
            ) == v
            &&& says(ls, k, "PERFORMER"@) && !in_track(ls, k) && (forall|i: int|
                k < i < n && #[trigger] says(ls, i, "PERFORMER"@) ==> in_track(ls, i)) ==> opt_text(
                s.performer,
            ) == v
            &&& remarks(ls, k, "DATE"@) && (forall|i: int|
                k < i < n ==> !#[trigger] remarks(ls, i, "DATE"@)) ==> s@.date == first_year(
                unquoted(after_word(value(ls, k))),
            )
            &&& remarks(ls, k, "GENRE"@) && (forall|i: int|
                k < i < n ==> !#[trigger] remarks(ls, i, "GENRE"@)) ==> opt_text(s.genre) == if_any(
                unquoted(after_word(value(ls, k))),
            )
        }),
{
    let ls = lines(text@);
    assert(ls.take(ls.len() as int) =~= ls);
    lemma_sheet_field(ls, k, ls.len() as int);
    assert(s@.title == opt_text(s.title) && s@.performer == opt_text(s.performer));
}

/// What no line says of a sheet outside its tracks is unknown.
pub proof fn law_untold_is_unknown(text: &str, s: CueSheet)
    requires
        call_ensures(CueSheet::parse, (text,), s),
    ensures
        ({
            let ls = lines(text@);
            let n = ls.len() as int;
            &&& (forall|i: int| 0 <= i < n && #[trigger] says(ls, i, "TITLE"@) ==> in_track(ls, i))
                ==> s.title is None
            &&& (forall|i: int|
                0 <= i < n && #[trigger] says(ls, i, "PERFORMER"@) ==> in_track(ls, i))
                ==> s.performer is None
            &&& (forall|i: int| 0 <= i < n ==> !#[trigger] remarks(ls, i, "DATE"@))
                ==> s.date is None
            &&& (forall|i: int| 0 <= i < n ==> !#[trigger] remarks(ls, i, "GENRE"@))
                ==> s.genre is None
        }),
{
    let ls = lines(text@);
    assert(ls.take(ls.len() as int) =~= ls);
    lemma_sheet_untold(ls, ls.len() as int);
    assert(s@.title == opt_text(s.title) && s@.performer == opt_text(s.performer));
    assert(s@.genre == opt_text(s.genre));
}

proof fn lemma_files(ls: Seq<Seq<char>>, j: int)
    requires
        0 <= j <= ls.len(),
    ensures
        at(ls, j).file is Some <==> count(ls, "FILE"@, 0, j) > 0,
        at(ls, j).sheet.files.len() + (if at(ls, j).file is Some {
            1nat
        } else {
            0nat
        }) == count(ls, "FILE"@, 0, j),
    decreases j,
{
    lemma_commands_differ();
    if j == 0 {
        assert(ls.take(0) =~= Seq::empty());
    } else {
        lemma_files(ls, j - 1);
        lemma_step(ls, j - 1);
    }
}

proof fn lemma_in_file(ls: Seq<Seq<char>>, a: int, j: int)
    requires
        0 <= a < j <= ls.len(),
        says(ls, a, "FILE"@),
        forall|i: int| a < i < j ==> !#[trigger] says(ls, i, "FILE"@),
    ensures
        ({
            let p = at(ls, j);
            &&& p.file matches Some(f)
            &&& f.name == named_file(value(ls, a))
            &&& f.tracks.len() + (if p.track is Some {
                1nat
            } else {
                0nat
            }) == count(ls, "TRACK"@, a, j)
            &&& p.sheet.files.len() == count(ls, "FILE"@, 0, a)
        }),
    decreases j,
{
    lemma_commands_differ();
    lemma_step(ls, j - 1);
    if j - 1 == a {
        lemma_files(ls, a);
        assert(count(ls, "TRACK"@, a, a) == 0);
    } else {
        assert(!says(ls, j - 1, "FILE"@));
        lemma_in_file(ls, a, j - 1);
    }
}

/// What the lines from `b` up to `j` say of the track that line `b` opens.
pub open spec fn told(ls: Seq<Seq<char>>, b: int, j: int, t: TrackView) -> bool {
    &&& match numeral(trimmed(first_word(value(ls, b))), u32::MAX as nat) {
        Some(n) => t.number == n,
        None => t.number == 0,
    }
    &&& forall|k: int|
        b < k < j && #[trigger] says(ls, k, "TITLE"@) && (forall|i: int|
            k < i < j ==> !#[trigger] says(ls, i, "TITLE"@)) ==> t.title == if_any(
            unquoted(value(ls, k)),
        )
    &&& forall|k: int|
        b < k < j && #[trigger] says(ls, k, "PERFORMER"@) && (forall|i: int|
            k < i < j ==> !#[trigger] says(ls, i, "PERFORMER"@)) ==> t.performer == if_any(
            unquoted(value(ls, k)),
        )
    &&& forall|k: int|
        b < k < j && #[trigger] starts(ls, k) && (forall|i: int|
            k < i < j ==> !#[trigger] starts(ls, i)) ==> t.start_ms == index_ms(
            trimmed(after_word(value(ls, k))),
        )
    &&& (forall|k: int| b < k < j ==> !#[trigger] says(ls, k, "TITLE"@)) ==> t.title is None
    &&& (forall|k: int| b < k < j ==> !#[trigger] says(ls, k, "PERFORMER"@))
        ==> t.performer is None
    &&& (forall|k: int| b < k < j ==> !#[trigger] starts(ls, k)) ==> t.start_ms == 0
}

proof fn lemma_told_more(ls: Seq<Seq<char>>, b: int, m: int, t: TrackView, u: TrackView)
    requires
        b < m,
        told(ls, b, m, t),
        u.number == t.number,
        u.title == (if says(ls, m, "TITLE"@) {
            if_any(unquoted(value(ls, m)))
        } else {
            t.title
        }),
        u.performer == (if says(ls, m, "PERFORMER"@) {
            if_any(unquoted(value(ls, m)))
        } else {
            t.performer
        }),
        u.start_ms == (if starts(ls, m) {
            index_ms(trimmed(after_word(value(ls, m))))
        } else {
            t.start_ms
        }),
    ensures
        told(ls, b, m + 1, u),
{
    let j = m + 1;
    assert forall|k: int|
        b < k < j && #[trigger] says(ls, k, "TITLE"@) && (forall|i: int|
            k < i < j ==> !#[trigger] says(ls, i, "TITLE"@)) implies u.title == if_any(
        unquoted(value(ls, k)),
    ) by {
        if k < m {
            assert(!says(ls, m, "TITLE"@));
        }
    }
    assert forall|k: int|
        b < k < j && #[trigger] says(ls, k, "PERFORMER"@) && (forall|i: int|
            k < i < j ==> !#[trigger] says(ls, i, "PERFORMER"@)) implies u.performer == if_any(
        unquoted(value(ls, k)),
    ) by {
        if k < m {
            assert(!says(ls, m, "PERFORMER"@));
        }
    }
    assert forall|k: int|
        b < k < j && #[trigger] starts(ls, k) && (forall|i: int|
            k < i < j ==> !#[trigger] starts(ls, i)) implies u.start_ms == index_ms(
        trimmed(after_word(value(ls, k))),
    ) by {
        if k < m {
            assert(!starts(ls, m));
        }
    }
    if forall|k: int| b < k < j ==> !#[trigger] says(ls, k, "TITLE"@) {
        assert(!says(ls, m, "TITLE"@));
    }
    if forall|k: int| b < k < j ==> !#[trigger] says(ls, k, "PERFORMER"@) {
        assert(!says(ls, m, "PERFORMER"@));
    }
    if forall|k: int| b < k < j ==> !#[trigger] starts(ls, k) {
        assert(!starts(ls, m));
    }
}

proof fn lemma_told(ls: Seq<Seq<char>>, b: int, j: int)
    requires
        0 <= b < j <= ls.len(),
        says(ls, b, "TRACK"@),
        forall|i: int|
            b < i < j ==> !#[trigger] says(ls, i, "FILE"@) && !says(ls, i, "TRACK"@),
    ensures
        at(ls, j).track is Some,
        told(ls, b, j, at(ls, j).track->0),
        at(ls, j).file == close_track(at(ls, b)).file,
    decreases j,
{
    lemma_step(ls, j - 1);
    if j - 1 > b {
        assert(!says(ls, j - 1, "FILE"@) && !says(ls, j - 1, "TRACK"@));
        lemma_told(ls, b, j - 1);
        lemma_told_more(ls, b, j - 1, at(ls, j - 1).track->0, at(ls, j).track->0);
    }
}

/// Track `t` of file `f` is settled.
spec fn settled(p: Progress, f: nat, name: Seq<char>, t: nat, track: TrackView) -> bool {
    ||| {
        &&& p.file matches Some(g)
        &&& p.sheet.files.len() == f
        &&& g.name == name
        &&& g.tracks.len() > t
        &&& g.tracks[t as int] == track
    }
    ||| {
        &&& p.sheet.files.len() > f
        &&& p.sheet.files[f as int].name == name
        &&& p.sheet.files[f as int].tracks.len() > t
        &&& p.sheet.files[f as int].tracks[t as int] == track
    }
}

proof fn lemma_settled(
    ls: Seq<Seq<char>>,
    i: int,
    j: int,
    f: nat,
    name: Seq<char>,
    t: nat,
    track: TrackView,
)
    requires
        0 <= i <= j <= ls.len(),
        settled(at(ls, i), f, name, t, track),
    ensures
        settled(at(ls, j), f, name, t, track),
    decreases j - i,
{
    if i < j {
        lemma_step(ls, i);
        lemma_commands_differ();
        lemma_settled(ls, i + 1, j, f, name, t, track);
    }
}

/// Every `TRACK` line behind a `FILE` line becomes a track of that file, and the lines up to
/// the next `TRACK` or `FILE` line say what it is: its number, its title and performer, each
/// from the last such line, and its start from the last `INDEX 01`. Files and tracks stand in
/// the order of their lines.
pub proof fn law_every_track_is_read(text: &str, s: CueSheet, a: int, b: int, d: int)
    requires
        call_ensures(CueSheet::parse, (text,), s),
        0 <= a < b < d <= lines(text@).len(),
        says(lines(text@), a, "FILE"@),
        forall|i: int| a < i < b ==> !#[trigger] says(lines(text@), i, "FILE"@),
        says(lines(text@), b, "TRACK"@),
        forall|i: int|
            b < i < d ==> !#[trigger] says(lines(text@), i, "FILE"@) && !says(
                lines(text@),
                i,
                "TRACK"@,
            ),
        d < lines(text@).len() ==> says(lines(text@), d, "FILE"@) || says(
            lines(text@),
            d,
            "TRACK"@,
        ),
    ensures
        ({
            let ls = lines(text@);
            let f = count(ls, "FILE"@, 0, a) as int;
            let t = count(ls, "TRACK"@, a, b) as int;
            &&& f < s.files@.len()
            &&& s.files@[f].name@ == named_file(value(ls, a))
            &&& t < s.files@[f].tracks@.len()
            &&& told(ls, b, d, s.files@[f].tracks@[t]@)
        }),
{
    let ls = lines(text@);
    let n = ls.len() as int;
    let f = count(ls, "FILE"@, 0, a);
    let t = count(ls, "TRACK"@, a, b);
    let name = named_file(value(ls, a));
    lemma_commands_differ();
    lemma_in_file(ls, a, b);
    lemma_told(ls, b, d);
    assert forall|i: int| a < i < d implies !#[trigger] says(ls, i, "FILE"@) by {}
    lemma_in_file(ls, a, d);
    let p = at(ls, d);
    let track = p.track->0;
    assert(p.file->0.tracks.len() == t);
    let end = at(ls, n);
    assert(ls.take(n) =~= ls);
    if d < n {
        lemma_step(ls, d);
        assert(settled(at(ls, d + 1), f, name, t, track));
        lemma_settled(ls, d + 1, n, f, name, t, track);
    }
    assert(s@ == close_file(close_track(end)).sheet);
    assert(f < s@.files.len());
    assert(t < s@.files[f as int].tracks.len());
    assert(s@.files[f as int].tracks[t as int] == track);
    assert(s@.files[f as int] == s.files@[f as int]@);
    assert(s@.files[f as int].tracks[t as int] == s.files@[f as int].tracks@[t as int]@);
}

proof fn lemma_closed_files(ls: Seq<Seq<char>>, j: int)
    requires
        0 <= j <= ls.len(),
    ensures
        close_file(close_track(at(ls, j))).sheet.files.len() == count(ls, "FILE"@, 0, j),
{
    lemma_files(ls, j);
}

/// A sheet has as many files as there are `FILE` lines.
pub proof fn law_every_file_is_read(text: &str, s: CueSheet)
    requires
        call_ensures(CueSheet::parse, (text,), s),
    ensures
        s.files@.len() == count(lines(text@), "FILE"@, 0, lines(text@).len() as int),
{
    let ls = lines(text@);
    assert(ls.take(ls.len() as int) =~= ls);
    lemma_closed_files(ls, ls.len() as int);
    assert(s@.files.len() == s.files@.len());
}

/// A line splits into its first word, which has no white space in it, and the rest, trimmed:
/// behind the white space in front, the word reaches up to the next white space.
pub proof fn law_line_splits_behind_its_first_word(
    s: &[char],
    r: (&[char], &[char]),
    lead: Seq<char>,
    word: Seq<char>,
    rest: Seq<char>,
)
    requires
        call_ensures(split_first, (s,), r),
        s@ == lead + word + rest,
        forall|i: int| 0 <= i < lead.len() ==> is_space(#[trigger] lead[i]),
        forall|i: int| 0 <= i < word.len() ==> !is_space(#[trigger] word[i]),
        rest.len() > 0 ==> is_space(rest[0]) && word.len() > 0,
    ensures
        r.0@ == word,
        r.1@ == trimmed(rest),
{
    lemma_trim_lead(lead, word + rest);
    assert(lead + (word + rest) =~= s@);
    let t = word + rest;
    assert forall|i: int| 0 <= i < word.len() implies !is_space(#[trigger] t[i]) by {
        assert(t[i] == word[i]);
    }
    lemma_word_end(t, word.len() as int);
    assert(t.take(word.len() as int) =~= word);
    assert(t.skip(word.len() as int) =~= rest);
}

proof fn lemma_trim_lead(lead: Seq<char>, t: Seq<char>)
    requires
        forall|i: int| 0 <= i < lead.len() ==> is_space(#[trigger] lead[i]),
        t.len() > 0 ==> !is_space(t[0]),
    ensures
        trim_start(lead + t) == t,
    decreases lead.len(),
{
    let s = lead + t;
    if lead.len() == 0 {
        assert(s =~= t);
    } else {
        assert(is_space(lead[0]));
        assert(s[0] == lead[0]);
        let l = lead.skip(1);
        assert forall|i: int| 0 <= i < l.len() implies is_space(#[trigger] l[i]) by {
            assert(l[i] == lead[i + 1]);
        }
        assert(s.skip(1) =~= l + t);
        lemma_trim_lead(l, t);
    }
}

/// Quotes are taken off in pairs, around the trimmed text; anything else is just trimmed. A text
/// of white space is none.
pub proof fn law_quotes_come_off_in_pairs(s: &[char], r: &[char], o: Option<String>)
    requires
        call_ensures(unquote, (s,), r),
        call_ensures(non_empty, (s,), o),
    ensures
        ({
            let t = trimmed(s@);
            &&& t.len() >= 2 && t[0] == '"' && t[t.len() - 1] == '"' ==> r@ == t.subrange(
                1,
                t.len() - 1,
            )
            &&& t.len() < 2 || t[0] != '"' || t[t.len() - 1] != '"' ==> r@ == t
            &&& t.len() == 0 ==> o is None
            &&& t.len() > 0 ==> (o matches Some(x) && x@ == t)
        }),
{
}

/// A quoted file name is what stands between the quotes, whatever follows.
pub proof fn law_quoted_name_ends_at_its_quote(
    rest: &[char],
    r: String,
    name: Seq<char>,
    tail: Seq<char>,
)
    requires
        call_ensures(file_name, (rest,), r),
        trimmed(rest@) == seq!['"'] + name + seq!['"'] + tail,
        forall|i: int| 0 <= i < name.len() ==> name[i] != '"',
    ensures
        r@ == name,
{
    let t = trimmed(rest@);
    let u = t.skip(1);
    let k = name.len() as int;
    assert(t[0] == '"');
    assert forall|i: int| 0 <= i < k implies u[i] != '"' by {
        assert(u[i] == name[i]);
    }
    assert(u[k] == '"');
    crate::text::lemma_first_of(u, '"', k);
    assert(t.subrange(1, 1 + k) =~= name);
}

/// A file name that is not in a pair of quotes loses the word for its type at its end, if that is
/// one, and keeps all else.
pub proof fn law_unquoted_name_loses_its_type(
    rest: &[char],
    r: String,
    name: Seq<char>,
    word: Seq<char>,
    gap: char,
)
    requires
        call_ensures(file_name, (rest,), r),
        trimmed(rest@) == name + seq![gap] + word,
        name.len() > 0,
        name[0] != '"' || forall|i: int|
            1 <= i < trimmed(rest@).len() ==> #[trigger] trimmed(rest@)[i] != '"',
        is_space(gap),
        forall|i: int| 0 <= i < word.len() ==> !is_space(#[trigger] word[i]),
    ensures
        ({
            let w = upper(word);
            let known = w == "WAVE"@ || w == "MP3"@ || w == "AIFF"@ || w == "FLAC"@ || w
                == "BINARY"@ || w == "MOTOROLA"@;
            &&& known ==> r@ == trimmed(name)
            &&& !known ==> r@ == trimmed(rest@)
        }),
{
    let t = trimmed(rest@);
    let k = name.len() as int;
    assert(t[0] == name[0]);
    assert(t[k] == gap);
    assert forall|i: int| k < i < t.len() implies !is_space(#[trigger] t[i]) by {
        assert(t[i] == word[i - k - 1]);
    }
    lemma_last_space(t, k);
    assert(t.skip(k + 1) =~= word);
    assert(t.take(k) =~= name);
    if name[0] == '"' {
        let u = t.skip(1);
        assert forall|i: int| 0 <= i < u.len() implies u[i] != '"' by {
            assert(u[i] == t[i + 1]);
        }
        crate::text::lemma_first_of(u, '"', u.len() as int);
    }
}

proof fn lemma_last_space(s: Seq<char>, k: int)
    requires
        0 <= k < s.len(),
        is_space(s[k]),
        forall|i: int| k < i < s.len() ==> !is_space(#[trigger] s[i]),
    ensures
        last_space(s) == k,
    decreases s.len(),
{
    if k < s.len() - 1 {
        assert(!is_space(s[s.len() - 1]));
        let t = s.drop_last();
        assert forall|i: int| k < i < t.len() implies !is_space(#[trigger] t[i]) by {
            assert(t[i] == s[i]);
        }
        lemma_last_space(t, k);
    }
}

/// A time is minutes, seconds and frames with colons between, a seventy-fifth of a second to the
/// frame.
pub proof fn law_index_counts_minutes_seconds_frames(
    t: &str,
    ms: u64,
    a: Seq<char>,
    b: Seq<char>,
    c: Seq<char>,
    m: nat,
    s: nat,
    f: nat,
)
    requires
        call_ensures(parse_index_ms, (t,), ms),
        t@ == a + seq![':'] + b + seq![':'] + c,
        forall|i: int| 0 <= i < a.len() ==> a[i] != ':',
        forall|i: int| 0 <= i < b.len() ==> b[i] != ':',
        forall|i: int| 0 <= i < c.len() ==> c[i] != ':',
        numeral(trimmed(a), u64::MAX as nat) == Some(m),
        numeral(trimmed(b), u64::MAX as nat) == Some(s),
        numeral(trimmed(c), u64::MAX as nat) == Some(f),
        m * 60_000 + s * 1_000 + f * 1_000 <= u64::MAX,
    ensures
        ms == m * 60_000 + s * 1_000 + f * 1_000 / 75,
{
    let x = t@;
    let rest = b + seq![':'] + c;
    assert(x =~= a + seq![':'] + rest);
    crate::text::lemma_first_of(x, ':', a.len() as int);
    assert(x.take(a.len() as int) =~= a);
    assert(x.skip(a.len() as int + 1) =~= rest);
    crate::text::lemma_first_of(rest, ':', b.len() as int);
    assert(rest.take(b.len() as int) =~= b);
    assert(rest.skip(b.len() as int + 1) =~= c);
    crate::text::lemma_first_of(c, ':', c.len() as int);
    assert(c.take(c.len() as int) =~= c);
    reveal_with_fuel(colon_piece, 3);
    assert(colon_piece(x, 0) == Some(a));
    assert(colon_piece(x, 1) == Some(b));
    assert(colon_piece(x, 2) == Some(c));
    law_index_is_exact(x);
}

/// The open track goes behind the other tracks of the open file; without a file it is lost.
pub proof fn law_open_track_goes_into_the_open_file(
    file: &mut Option<CueFile>,
    track: &mut Option<CueTrack>,
    u: (),
)
    requires
        call_ensures(flush_track, (file, track), u),
    ensures
        *final(track) is None,
        *old(file) is None ==> *final(file) is None,
        *old(file) is Some ==> {
            &&& *final(file) is Some
            &&& (*final(file))->0.name@ == (*old(file))->0.name@
            &&& *old(track) is None ==> (*final(file))->0@.tracks == (*old(file))->0@.tracks
            &&& *old(track) is Some ==> (*final(file))->0@.tracks == (*old(file))->0@.tracks.push(
                (*old(track))->0@,
            )
        },
{
}

/// A sheet is of use if it has a track; bytes are read as UTF-8, without a mark at their start.
pub proof fn law_useful_sheets_are_kept(
    sheet: CueSheet,
    k: Option<CueSheet>,
    bytes: &[u8],
    r: Option<CueSheet>,
    text: String,
    s: &str,
    whole: CueSheet,
)
    requires
        call_ensures(keep_usable, (sheet,), k),
        call_ensures(parse_file, (bytes,), r),
        call_ensures(decode_text, (bytes,), text),
        call_ensures(CueSheet::parse, (s,), whole),
        s@ == text@,
    ensures
        k is Some <==> exists|i: int|
            0 <= i < sheet.files@.len() && (#[trigger] sheet.files@[i]).tracks@.len() > 0,
        k matches Some(x) ==> x == sheet,
        r is Some <==> exists|i: int|
            0 <= i < whole.files@.len() && (#[trigger] whole.files@[i]).tracks@.len() > 0,
        r matches Some(x) ==> x@ == whole@,
        bytes@.len() >= 3 && bytes@[0] == 0xEF && bytes@[1] == 0xBB && bytes@[2] == 0xBF ==> text@
            == utf8_lossy(bytes@.skip(3)),
        !(bytes@.len() >= 3 && bytes@[0] == 0xEF && bytes@[1] == 0xBB && bytes@[2] == 0xBF)
            ==> text@ == utf8_lossy(bytes@),
{
    lemma_has_tracks(sheet);
    lemma_has_tracks(whole);
}

proof fn lemma_has_tracks(s: CueSheet)
    ensures
        has_tracks(s@) <==> exists|i: int|
            0 <= i < s.files@.len() && (#[trigger] s.files@[i]).tracks@.len() > 0,
{
    assert forall|i: int| 0 <= i < s.files@.len() implies s@.files[i].tracks.len() == (
    #[trigger] s.files@[i]).tracks@.len() by {
        assert(s@.files[i] == s.files@[i]@);
    }
    if has_tracks(s@) {
        let i = choose|i: int| 0 <= i < s@.files.len() && (#[trigger] s@.files[i]).tracks.len() > 0;
        assert(s.files@[i].tracks@.len() > 0);
    }
    if exists|i: int| 0 <= i < s.files@.len() && (#[trigger] s.files@[i]).tracks@.len() > 0 {
        let i = choose|i: int| 0 <= i < s.files@.len() && (#[trigger] s.files@[i]).tracks@.len() > 0;
        assert(s@.files[i].tracks.len() > 0);
    }
}

/// The year of a remark is read like any other: the first four digits in a row.
pub proof fn law_remarked_year_is_the_first(s: &[char], r: Option<i32>, q: Option<i32>)
    requires
        call_ensures(parse_year, (s,), r),
        call_ensures(find_year, (s,), q),
    ensures
        r == q,
{
}

/// File `f` is closed.
spec fn closed_file(p: Progress, f: nat, file: FileView) -> bool {
    p.sheet.files.len() > f && p.sheet.files[f as int] == file
}

proof fn lemma_closed_file(ls: Seq<Seq<char>>, i: int, j: int, f: nat, file: FileView)
    requires
        0 <= i <= j <= ls.len(),
        closed_file(at(ls, i), f, file),
    ensures
        closed_file(at(ls, j), f, file),
    decreases j - i,
{
    if i < j {
        lemma_step(ls, i);
        lemma_commands_differ();
        lemma_closed_file(ls, i + 1, j, f, file);
    }
}

/// A file of a sheet has just the tracks whose lines stand behind its own and before the next
/// file's.
pub proof fn law_file_has_just_its_tracks(text: &str, s: CueSheet, a: int, e: int)
    requires
        call_ensures(CueSheet::parse, (text,), s),
        0 <= a < e <= lines(text@).len(),
        says(lines(text@), a, "FILE"@),
        forall|i: int| a < i < e ==> !#[trigger] says(lines(text@), i, "FILE"@),
        e < lines(text@).len() ==> says(lines(text@), e, "FILE"@),
    ensures
        ({
            let ls = lines(text@);
            let f = count(ls, "FILE"@, 0, a) as int;
            &&& f < s.files@.len()
            &&& s.files@[f].name@ == named_file(value(ls, a))
            &&& s.files@[f].tracks@.len() == count(ls, "TRACK"@, a, e)
        }),
{
    let ls = lines(text@);
    let n = ls.len() as int;
    let f = count(ls, "FILE"@, 0, a);
    lemma_in_file(ls, a, e);
    assert(ls.take(n) =~= ls);
    let file = close_track(at(ls, e)).file->0;
    if e < n {
        lemma_step(ls, e);
        assert(closed_file(at(ls, e + 1), f, file));
        lemma_closed_file(ls, e + 1, n, f, file);
    }
    assert(s@ == close_file(close_track(at(ls, n))).sheet);
    assert(f < s@.files.len());
    assert(s@.files[f as int] == file);
    assert(s@.files[f as int] == s.files@[f as int]@);
    assert(s.files@[f as int]@.tracks.len() == s.files@[f as int].tracks@.len());
}

/// What is shown of a track, a file and a sheet are their own fields.
pub proof fn law_fields_are_shown_as_they_are(t: CueTrack, f: CueFile, s: CueSheet, k: int)
    requires
        s.date matches Some(d) ==> d >= 0,
    ensures
        t@.number == t.number && t@.start_ms == t.start_ms,
        t.title is None ==> t@.title is None,
        t.title matches Some(x) ==> t@.title == Some(x@),
        t.performer is None ==> t@.performer is None,
        t.performer matches Some(x) ==> t@.performer == Some(x@),
        f@.name == f.name@ && f@.tracks.len() == f.tracks@.len(),
        0 <= k < f.tracks@.len() ==> f@.tracks[k] == f.tracks@[k]@,
        s.title matches Some(x) ==> s@.title == Some(x@),
        s.performer matches Some(x) ==> s@.performer == Some(x@),
        s.genre matches Some(x) ==> s@.genre == Some(x@),
        s.date matches Some(d) ==> s@.date == Some(d as nat),
        s.title is None ==> s@.title is None,
        s.performer is None ==> s@.performer is None,
        s.genre is None ==> s@.genre is None,
        s.date is None ==> s@.date is None,
        s@.files.len() == s.files@.len(),
        0 <= k < s.files@.len() ==> s@.files[k] == s.files@[k]@,
{
}

/// A time reads the same from its characters.
pub proof fn law_index_reads_the_same(t: &str, c: &[char], a: u64, b: u64)
    requires
        call_ensures(parse_index_ms, (t,), a),
        call_ensures(parse_index_chars, (c,), b),
        c@ == t@,
    ensures
        a == b,
{
}

/// A file name without white space that is not in quotes is the whole of it.
pub proof fn law_single_word_is_the_name(rest: &[char], r: String)
    requires
        call_ensures(file_name, (rest,), r),
        trimmed(rest@).len() > 0,
        trimmed(rest@)[0] != '"',
        forall|i: int| 0 <= i < trimmed(rest@).len() ==> !is_space(#[trigger] trimmed(rest@)[i]),
    ensures
        r@ == trimmed(rest@),
{
    lemma_no_space(trimmed(rest@));
}

proof fn lemma_no_space(s: Seq<char>)
    requires
        forall|i: int| 0 <= i < s.len() ==> !is_space(#[trigger] s[i]),
    ensures
        last_space(s) == -1,
    decreases s.len(),
{
    if s.len() > 0 {
        assert(!is_space(s[s.len() - 1]));
        let t = s.drop_last();
        assert forall|i: int| 0 <= i < t.len() implies !is_space(#[trigger] t[i]) by {
            assert(t[i] == s[i]);
        }
        lemma_no_space(t);
    }
}

/// The number that a piece of a time stands for; zero if it is none.
pub open spec fn piece_value(s: Seq<char>) -> nat {
    match numeral(trimmed(s), u64::MAX as nat) {
        Some(n) => n,
        None => 0,
    }
}

/// What is missing in a time counts as zero, and so does what is no number; what follows the
/// frames does not count.
pub proof fn law_missing_parts_of_a_time_are_zero(
    t: &str,
    ms: u64,
    a: Seq<char>,
    b: Seq<char>,
    c: Seq<char>,
    more: Seq<char>,
)
    requires
        call_ensures(parse_index_ms, (t,), ms),
        forall|i: int| 0 <= i < a.len() ==> a[i] != ':',
        forall|i: int| 0 <= i < b.len() ==> b[i] != ':',
        forall|i: int| 0 <= i < c.len() ==> c[i] != ':',
        piece_value(a) * 60_000 + piece_value(b) * 1_000 + piece_value(c) * 1_000 <= u64::MAX,
    ensures
        t@ == a ==> ms == piece_value(a) * 60_000,
        t@ == a + seq![':'] + b ==> ms == piece_value(a) * 60_000 + piece_value(b) * 1_000,
        t@ == a + seq![':'] + b + seq![':'] + c ==> ms == piece_value(a) * 60_000 + piece_value(b)
            * 1_000 + piece_value(c) * 1_000 / 75,
        t@ == a + seq![':'] + b + seq![':'] + c + seq![':'] + more ==> ms == piece_value(a) * 60_000
            + piece_value(b) * 1_000 + piece_value(c) * 1_000 / 75,
{
    let x = t@;
    let la = a.len() as int;
    let lb = b.len() as int;
    let lc = c.len() as int;
    reveal_with_fuel(colon_piece, 3);
    if x == a {
        crate::text::lemma_first_of(x, ':', la);
        assert(x.take(la) =~= a);
        assert(colon_piece(x, 0) == Some(a) && colon_piece(x, 1) is None && colon_piece(x, 2)
            is None);
        law_index_is_exact(x);
    }
    if x == a + seq![':'] + b {
        crate::text::lemma_first_of(x, ':', la);
        assert(x.take(la) =~= a);
        assert(x.skip(la + 1) =~= b);
        crate::text::lemma_first_of(b, ':', lb);
        assert(b.take(lb) =~= b);
        assert(colon_piece(x, 0) == Some(a) && colon_piece(x, 1) == Some(b) && colon_piece(x, 2)
            is None);
        law_index_is_exact(x);
    }
    if x == a + seq![':'] + b + seq![':'] + c {
        lemma_three_pieces(x, a, b, c, c);
        law_index_is_exact(x);
    }
    if x == a + seq![':'] + b + seq![':'] + c + seq![':'] + more {
        let tail = c + seq![':'] + more;
        assert(x =~= a + seq![':'] + b + seq![':'] + tail);
        assert(tail.take(lc) =~= c);
        assert(tail[lc] == ':');
        lemma_three_pieces(x, a, b, c, tail);
        law_index_is_exact(x);
    }
}

proof fn lemma_three_pieces(
    x: Seq<char>,
    a: Seq<char>,
    b: Seq<char>,
    c: Seq<char>,
    tail: Seq<char>,
)
    requires
        x == a + seq![':'] + b + seq![':'] + tail,
        forall|i: int| 0 <= i < a.len() ==> a[i] != ':',
        forall|i: int| 0 <= i < b.len() ==> b[i] != ':',
        forall|i: int| 0 <= i < c.len() ==> c[i] != ':',
        tail == c || tail.len() > c.len() && tail.take(c.len() as int) == c && tail[c.len() as int]
            == ':',
    ensures
        colon_piece(x, 0) == Some(a),
        colon_piece(x, 1) == Some(b),
        colon_piece(x, 2) == Some(c),
{
    let la = a.len() as int;
    let lb = b.len() as int;
    let lc = c.len() as int;
    let rest = b + seq![':'] + tail;
    reveal_with_fuel(colon_piece, 3);
    assert(x =~= a + seq![':'] + rest);
    crate::text::lemma_first_of(x, ':', la);
    assert(x.take(la) =~= a);
    assert(x.skip(la + 1) =~= rest);
    crate::text::lemma_first_of(rest, ':', lb);
    assert(rest.take(lb) =~= b);
    assert(rest.skip(lb + 1) =~= tail);
    assert forall|i: int| 0 <= i < lc implies tail[i] != ':' by {
        assert(tail.take(lc)[i] == tail[i]);
        if tail == c {
            assert(tail.take(lc) =~= c);
        }
        assert(tail[i] == c[i]);
    }
    crate::text::lemma_first_of(tail, ':', lc);
    assert(tail.take(lc) =~= c);
}

} // verus!
