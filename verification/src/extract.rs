//! From the tags and properties of a file to a row of the library.
use crate::cue::{if_any, non_empty, opt_text};
use crate::dsd::DSD64_RATE;
use crate::model::Track;
use crate::paths::{extension, extension_of, file_stem, file_stem_of};
use crate::text::{
    chars_of, decimal, find_year, first_year, lemma_sorts_chain, lemma_sorts_total, lower,
    lower_of, push_decimal, sorts_before, sorts_first, spells,
};
use vstd::prelude::*;
use vstd::string::*;

verus! {

/// A picture and the name it is stored under.
pub struct Art {
    /// The BLAKE3 hash of the bytes, in hexadecimal.
    pub hash: String,
    pub mime: String,
    pub bytes: Vec<u8>,
}

/// What a file tells about its music.
pub struct Extracted {
    pub title: Option<String>,
    pub artist: Option<String>,
    pub album_artist: Option<String>,
    pub album: Option<String>,
    pub composer: Option<String>,
    pub genre: Option<String>,
    pub track_no: Option<u32>,
    pub disc_no: Option<u32>,
    pub year: Option<i32>,
    pub duration_ms: Option<u64>,
    pub codec: Option<String>,
    pub sample_rate: Option<u32>,
    pub bits: Option<u32>,
    pub channels: Option<u32>,
    pub art: Option<Art>,
}

/// The kinds of file that a tag reader tells apart.
pub enum FileKind {
    Flac,
    Wav,
    Aiff,
    Mpeg,
    Mp4,
    Opus,
    Vorbis,
    Speex,
    Ape,
    WavPack,
    Mpc,
    /// Any other, by the reader's name for it.
    Other(String),
}

/// A picture as a tag holds it.
pub struct RawPicture {
    pub data: Vec<u8>,
    pub mime: Option<String>,
}

/// A tag as a file holds it.
pub struct RawTag {
    pub title: Option<String>,
    pub artist: Option<String>,
    pub album: Option<String>,
    pub genre: Option<String>,
    pub album_artist: Option<String>,
    pub composer: Option<String>,
    pub track_no: Option<u32>,
    pub disc_no: Option<u32>,
    pub year: Option<String>,
    pub recording_date: Option<String>,
    /// The first picture.
    pub picture: Option<RawPicture>,
}

/// The properties and the tag of a PCM file.
pub struct RawAudio {
    /// Zero where it is not known.
    pub duration_ms: u64,
    pub kind: FileKind,
    pub sample_rate: Option<u32>,
    pub bits: Option<u32>,
    pub channels: Option<u32>,
    pub tag: Option<RawTag>,
}

/// The ID3 tag of a DSF file.
pub struct RawDsfTag {
    pub title: Option<String>,
    pub artist: Option<String>,
    pub album: Option<String>,
    pub album_artist: Option<String>,
    pub genre: Option<String>,
    pub year: Option<i32>,
    pub track_no: Option<u32>,
    pub disc_no: Option<u32>,
    /// The first picture; an empty type where there is none.
    pub picture: Option<RawPicture>,
}

/// The properties and the tag of a DSF file.
pub struct RawDsf {
    pub channels: u32,
    /// The rate as a multiple of DSD64's.
    pub rate_multiple: i32,
    pub audio_len: u64,
    pub tag: Option<RawDsfTag>,
}

/// The BLAKE3 hash of some bytes in lower-case hexadecimal.
pub uninterp spec fn blake3_hex(bytes: Seq<u8>) -> Seq<char>;

/// `blake3::hash` followed by `Hash::to_hex`: sixty-four digits of lower-case hexadecimal,
/// a function of the bytes alone.
#[verifier::external_body]
fn hash_hex(bytes: &[u8]) -> (s: String)
    ensures
        s@ == blake3_hex(bytes@),
        s@.len() == 64,
        forall|i: int| 0 <= i < s@.len() ==> {
            let c = #[trigger] s@[i];
            '0' <= c <= '9' || 'a' <= c <= 'f'
        },
{
    blake3::hash(bytes).to_hex().to_string()
}

/// A text without the white space around it, if any is left.
pub open spec fn normed(v: Option<String>) -> Option<Seq<char>> {
    match v {
        Some(s) => if_any(s@),
        None => None,
    }
}

pub fn norm(v: &Option<String>) -> (r: Option<String>)
    ensures
        opt_text(r) == normed(*v),
{
    match v {
        Some(s) => {
            let c = chars_of(s.as_str());
            non_empty(c.as_slice())
        },
        None => None,
    }
}

/// The year in a text: its first four digits in a row.
pub fn parse_year(s: &str) -> (r: Option<i32>)
    ensures
        match r {
            Some(y) => y >= 0 && first_year(s@) == Some(y as nat),
            None => first_year(s@) is None,
        },
{
    let c = chars_of(s);
    find_year(c.as_slice())
}

pub open spec fn kind_text(k: FileKind) -> Seq<char> {
    match k {
        FileKind::Flac => "FLAC"@,
        FileKind::Wav => "WAV"@,
        FileKind::Aiff => "AIFF"@,
        FileKind::Mpeg => "MP3"@,
        FileKind::Mp4 => "M4A"@,
        FileKind::Opus => "Opus"@,
        FileKind::Vorbis => "Vorbis"@,
        FileKind::Speex => "Speex"@,
        FileKind::Ape => "APE"@,
        FileKind::WavPack => "WavPack"@,
        FileKind::Mpc => "Musepack"@,
        FileKind::Other(s) => s@,
    }
}

/// The name that the library gives a kind of file.
pub fn codec_label(k: &FileKind) -> (s: String)
    ensures
        s@ == kind_text(*k),
{
    match k {
        FileKind::Flac => String::from_str("FLAC"),
        FileKind::Wav => String::from_str("WAV"),
        FileKind::Aiff => String::from_str("AIFF"),
        FileKind::Mpeg => String::from_str("MP3"),
        FileKind::Mp4 => String::from_str("M4A"),
        FileKind::Opus => String::from_str("Opus"),
        FileKind::Vorbis => String::from_str("Vorbis"),
        FileKind::Speex => String::from_str("Speex"),
        FileKind::Ape => String::from_str("APE"),
        FileKind::WavPack => String::from_str("WavPack"),
        FileKind::Mpc => String::from_str("Musepack"),
        FileKind::Other(s) => s.clone(),
    }
}

/// The art is these bytes under their hash, with this type.
pub open spec fn is_art(a: Art, bytes: Seq<u8>, mime: Seq<char>) -> bool {
    a.hash@ == blake3_hex(bytes) && a.mime@ == mime && a.bytes@ == bytes
}

/// What becomes of a tag's picture: nothing if it is empty; a JPEG if it has no type.
pub open spec fn art_from(p: Option<RawPicture>, a: Option<Art>, mime: Seq<char>) -> bool {
    match p {
        Some(pic) if pic.data@.len() > 0 => a matches Some(art) && is_art(art, pic.data@, mime),
        _ => a is None,
    }
}

pub open spec fn picture_mime(p: Option<RawPicture>) -> Seq<char> {
    match p {
        Some(pic) => match pic.mime {
            Some(m) => m@,
            None => "image/jpeg"@,
        },
        None => Seq::empty(),
    }
}

fn picture_art(p: Option<RawPicture>) -> (a: Option<Art>)
    ensures
        art_from(p, a, picture_mime(p)),
{
    match p {
        None => None,
        Some(pic) => {
            if pic.data.len() == 0 {
                return None;
            }
            let hash = hash_hex(pic.data.as_slice());
            let mime = match pic.mime {
                Some(m) => m,
                None => String::from_str("image/jpeg"),
            };
            Some(Art { hash, mime, bytes: pic.data })
        },
    }
}

/// The year of a tag: from the year if there is one, else from the recording date.
pub open spec fn tag_year(t: RawTag) -> Option<nat> {
    match t.year {
        Some(y) => first_year(y@),
        None => match t.recording_date {
            Some(d) => first_year(d@),
            None => None,
        },
    }
}

pub open spec fn year_is(y: Option<i32>, v: Option<nat>) -> bool {
    match y {
        Some(n) => n >= 0 && v == Some(n as nat),
        None => v is None,
    }
}

/// The row of a PCM file.
pub fn extract(raw: RawAudio) -> (e: Extracted)
    ensures
        e.duration_ms == (if raw.duration_ms == 0 {
            None
        } else {
            Some(raw.duration_ms)
        }),
        opt_text(e.codec) == Some(kind_text(raw.kind)),
        e.sample_rate == raw.sample_rate,
        e.bits == raw.bits,
        e.channels == raw.channels,
        match raw.tag {
            None => {
                &&& e.title is None && e.artist is None && e.album is None && e.genre is None
                &&& e.album_artist is None && e.composer is None
                &&& e.track_no is None && e.disc_no is None && e.year is None && e.art is None
            },
            Some(t) => {
                &&& opt_text(e.title) == normed(t.title)
                &&& opt_text(e.artist) == normed(t.artist)
                &&& opt_text(e.album) == normed(t.album)
                &&& opt_text(e.genre) == normed(t.genre)
                &&& opt_text(e.album_artist) == normed(t.album_artist)
                &&& opt_text(e.composer) == normed(t.composer)
                &&& e.track_no == t.track_no
                &&& e.disc_no == t.disc_no
                &&& year_is(e.year, tag_year(t))
                &&& art_from(t.picture, e.art, picture_mime(t.picture))
            },
        },
{
    let duration_ms: Option<u64> = if raw.duration_ms == 0 {
        None
    } else {
        Some(raw.duration_ms)
    };
    let mut e = Extracted {
        title: None,
        artist: None,
        album_artist: None,
        album: None,
        composer: None,
        genre: None,
        track_no: None,
        disc_no: None,
        year: None,
        duration_ms,
        codec: Some(codec_label(&raw.kind)),
        sample_rate: raw.sample_rate,
        bits: raw.bits,
        channels: raw.channels,
        art: None,
    };
    if let Some(t) = raw.tag {
        e.title = norm(&t.title);
        e.artist = norm(&t.artist);
        e.album = norm(&t.album);
        e.genre = norm(&t.genre);
        e.album_artist = norm(&t.album_artist);
        e.composer = norm(&t.composer);
        e.track_no = t.track_no;
        e.disc_no = t.disc_no;
        e.year = match &t.year {
            Some(y) => parse_year(y.as_str()),
            None => match &t.recording_date {
                Some(d) => parse_year(d.as_str()),
                None => None,
            },
        };
        e.art = picture_art(t.picture);
    }
    e
}

/// One-bit samples per second of a DSF file, given its rate as a multiple of DSD64's.
pub open spec fn dsf_rate(multiple: int) -> nat {
    let m = if multiple < 1 {
        1
    } else {
        multiple
    };
    let r = DSD64_RATE * m;
    if r > u32::MAX {
        u32::MAX as nat
    } else {
        r as nat
    }
}

/// The type of a DSF picture; a JPEG if the tag gives none.
pub open spec fn dsf_mime(p: Option<RawPicture>) -> Seq<char> {
    match p {
        Some(pic) => match pic.mime {
            Some(m) if m@.len() > 0 => m@,
            _ => "image/jpeg"@,
        },
        None => Seq::empty(),
    }
}

fn dsf_art(p: Option<RawPicture>) -> (a: Option<Art>)
    ensures
        art_from(p, a, dsf_mime(p)),
{
    match p {
        None => None,
        Some(pic) => {
            if pic.data.len() == 0 {
                return None;
            }
            let hash = hash_hex(pic.data.as_slice());
            let mime = match pic.mime {
                Some(m) => if m.as_str().is_empty() {
                    String::from_str("image/jpeg")
                } else {
                    m
                },
                None => String::from_str("image/jpeg"),
            };
            Some(Art { hash, mime, bytes: pic.data })
        },
    }
}

/// The row of a DSF file. Its length follows from the bytes: eight samples to one of each
/// channel's.
pub fn extract_dsf(raw: RawDsf) -> (e: Extracted)
    ensures
        ({
            let rate = dsf_rate(raw.rate_multiple as int);
            &&& e.duration_ms == (if raw.channels > 0 && raw.audio_len > 0 {
                Some(((raw.audio_len as nat / raw.channels as nat) * 8 * 1000 / rate) as u64)
            } else {
                None
            })
            &&& opt_text(e.codec) == Some("DSD"@ + decimal(rate / 44_100))
        }),
        e.sample_rate is None,
        e.bits is None,
        e.composer is None,
        e.channels == Some(raw.channels),
        match raw.tag {
            None => {
                &&& e.title is None && e.artist is None && e.album is None && e.genre is None
                &&& e.album_artist is None && e.track_no is None && e.disc_no is None
                &&& e.year is None && e.art is None
            },
            Some(t) => {
                &&& opt_text(e.title) == normed(t.title)
                &&& opt_text(e.artist) == normed(t.artist)
                &&& opt_text(e.album) == normed(t.album)
                &&& opt_text(e.album_artist) == normed(t.album_artist)
                &&& opt_text(e.genre) == normed(t.genre)
                &&& e.year == t.year
                &&& e.track_no == t.track_no
                &&& e.disc_no == t.disc_no
                &&& art_from(t.picture, e.art, dsf_mime(t.picture))
            },
        },
{
    let m: u64 = if raw.rate_multiple < 1 {
        1
    } else {
        raw.rate_multiple as u64
    };
    let wide: u64 = DSD64_RATE as u64 * m;
    let rate: u64 = if wide > 0xffff_ffff {
        0xffff_ffff
    } else {
        wide
    };
    let duration_ms: Option<u64> = if raw.channels > 0 && raw.audio_len > 0 {
        let per: u64 = raw.audio_len / raw.channels as u64;
        let ms: u128 = per as u128 * 8 * 1000 / rate as u128;
        assert(ms <= u64::MAX) by (nonlinear_arith)
            requires
                ms == per * 8 * 1000 / rate as int,
                per <= u64::MAX,
                rate >= 2_822_400,
        ;
        Some(ms as u64)
    } else {
        None
    };
    let mut codec = String::from_str("DSD");
    push_decimal(&mut codec, rate / 44_100);
    let mut e = Extracted {
        title: None,
        artist: None,
        album_artist: None,
        album: None,
        composer: None,
        genre: None,
        track_no: None,
        disc_no: None,
        year: None,
        duration_ms,
        codec: Some(codec),
        sample_rate: None,
        bits: None,
        channels: Some(raw.channels),
        art: None,
    };
    if let Some(t) = raw.tag {
        e.title = norm(&t.title);
        e.artist = norm(&t.artist);
        e.album = norm(&t.album);
        e.album_artist = norm(&t.album_artist);
        e.genre = norm(&t.genre);
        e.year = t.year;
        e.track_no = t.track_no;
        e.disc_no = t.disc_no;
        e.art = dsf_art(t.picture);
    }
    e
}

/// A file without a picture of its own takes the folder's.
pub fn with_folder_fallback(e: Extracted, cover: Option<Art>) -> (r: Extracted)
    ensures
        r == (Extracted {
            art: if e.art is None {
                cover
            } else {
                e.art
            },
            ..e
        }),
{
    let mut r = e;
    if r.art.is_none() {
        r.art = cover;
    }
    r
}

/// The names of cover pictures, best first.
pub open spec fn cover_rank(stem: Seq<char>) -> Option<nat> {
    if stem == "cover"@ {
        Some(0)
    } else if stem == "folder"@ {
        Some(1)
    } else if stem == "front"@ {
        Some(2)
    } else if stem == "albumart"@ {
        Some(3)
    } else if stem == "album"@ {
        Some(4)
    } else if stem == "thumb"@ {
        Some(5)
    } else {
        None
    }
}

pub open spec fn is_cover_ext(e: Seq<char>) -> bool {
    ||| e == "jpg"@
    ||| e == "jpeg"@
    ||| e == "png"@
    ||| e == "webp"@
    ||| e == "bmp"@
    ||| e == "gif"@
}

/// How good a file is as a cover, by its name alone.
pub open spec fn file_rank(path: Seq<char>) -> Option<nat> {
    match (file_stem(path), extension(path)) {
        (Some(stem), Some(ext)) => if is_cover_ext(lower(ext)) {
            cover_rank(lower(stem))
        } else {
            None
        },
        _ => None,
    }
}

fn rank_of(path: &str) -> (r: Option<u32>)
    ensures
        match r {
            Some(n) => file_rank(path@) == Some(n as nat) && n <= 5,
            None => file_rank(path@) is None,
        },
{
    let stem = match file_stem_of(path) {
        Some(s) => s,
        None => return None,
    };
    let ext = match extension_of(path) {
        Some(e) => lower_of(e.as_slice()),
        None => return None,
    };
    let e = ext.as_slice();
    if !(spells(e, "jpg") || spells(e, "jpeg") || spells(e, "png") || spells(e, "webp") || spells(
        e,
        "bmp",
    ) || spells(e, "gif")) {
        return None;
    }
    let c = chars_of(stem.as_str());
    let low = lower_of(c.as_slice());
    let s = low.as_slice();
    if spells(s, "cover") {
        Some(0)
    } else if spells(s, "folder") {
        Some(1)
    } else if spells(s, "front") {
        Some(2)
    } else if spells(s, "albumart") {
        Some(3)
    } else if spells(s, "album") {
        Some(4)
    } else if spells(s, "thumb") {
        Some(5)
    } else {
        None
    }
}

/// The first file name is a better cover than the second: its kind of name is preferred, or
/// is the same and it comes first in the alphabet.
pub open spec fn better_cover(a: Seq<char>, b: Seq<char>) -> bool {
    match (file_rank(a), file_rank(b)) {
        (Some(x), Some(y)) => x < y || (x == y && sorts_before(a, b)),
        (Some(_), None) => true,
        _ => false,
    }
}

/// Of these file names this one is the best cover.
pub open spec fn is_best_cover(files: Seq<Seq<char>>, name: Seq<char>) -> bool {
    &&& files.contains(name)
    &&& file_rank(name) is Some
    &&& forall|i: int|
        0 <= i < files.len() ==> #[trigger] files[i] == name || better_cover(name, files[i])
}

/// The place of the best cover among a folder's files; none if no file is one.
pub fn folder_cover(files: &Vec<String>) -> (r: Option<usize>)
    ensures
        match r {
            None => forall|i: int| 0 <= i < files@.len() ==> file_rank(#[trigger] files@[i]@) is None,
            Some(k) => {
                &&& k < files@.len()
                &&& is_best_cover(file_names(files@), files@[k as int]@)
                &&& forall|i: int| 0 <= i < k ==> #[trigger] files@[i]@ != files@[k as int]@
            },
        },
{
    let mut best: Option<usize> = None;
    let mut best_rank: u32 = 0;
    for i in 0..files.len()
        invariant
            match best {
                None => forall|j: int|
                    0 <= j < i ==> file_rank(#[trigger] files@[j]@) is None,
                Some(k) => {
                    &&& k < i <= files@.len()
                    &&& file_rank(files@[k as int]@) == Some(best_rank as nat)
                    &&& forall|j: int|
                        0 <= j < i ==> (#[trigger] files@[j]@ == files@[k as int]@ && k <= j)
                            || better_cover(files@[k as int]@, files@[j]@)
                },
            },
    {
        if let Some(r) = rank_of(files[i].as_str()) {
            let first: bool = match best {
                None => true,
                Some(k) => r < best_rank || (r == best_rank && sorts_first(
                    files[i].as_str(),
                    files[k].as_str(),
                )),
            };
            proof {
                if let Some(k) = best {
                    let (x, y) = (files@[i as int]@, files@[k as int]@);
                    lemma_sorts_total(x, y);
                    if first {
                        assert forall|j: int| 0 <= j < i implies better_cover(
                            x,
                            #[trigger] files@[j]@,
                        ) by {
                            if files@[j]@ != y {
                                lemma_sorts_chain(x, y, files@[j]@);
                            }
                        }
                    }
                }
            }
            if first {
                best = Some(i);
                best_rank = r;
            }
        }
    }
    proof {
        if let Some(k) = best {
            let names = file_names(files@);
            assert(names[k as int] == files@[k as int]@);
            assert forall|j: int| 0 <= j < names.len() implies #[trigger] names[j]
                == files@[k as int]@ || better_cover(files@[k as int]@, names[j]) by {
                assert(names[j] == files@[j]@);
            }
            assert forall|j: int| 0 <= j < k implies #[trigger] files@[j]@ != files@[k as int]@ by {
                lemma_sorts_total(files@[k as int]@, files@[j]@);
            }
        }
    }
    best
}

/// The names that a list of texts spells.
pub open spec fn file_names(files: Seq<String>) -> Seq<Seq<char>> {
    files.map_values(|f: String| f@)
}

/// Which cover is the best does not hang on the order in which a folder lists its files: any
/// permutation of the list has the same best one.
pub proof fn law_cover_ignores_the_order(
    a: Seq<Seq<char>>,
    b: Seq<Seq<char>>,
    x: Seq<char>,
    y: Seq<char>,
)
    requires
        a.to_multiset() == b.to_multiset(),
        is_best_cover(a, x),
        is_best_cover(b, y),
    ensures
        x == y,
{
    a.to_multiset_ensures();
    b.to_multiset_ensures();
    assert(b.to_multiset().count(y) > 0);
    assert(a.to_multiset().count(x) > 0);
    let i = choose|i: int| 0 <= i < a.len() && a[i] == y;
    let j = choose|j: int| 0 <= j < b.len() && b[j] == x;
    assert(a[i] == x || better_cover(x, a[i]));
    assert(b[j] == y || better_cover(y, b[j]));
    if x != y {
        lemma_sorts_total(x, y);
    }
}

pub open spec fn cover_mime(path: Seq<char>) -> Seq<char> {
    match extension(path) {
        Some(e) => if lower(e) == "png"@ {
            "image/png"@
        } else if lower(e) == "webp"@ {
            "image/webp"@
        } else if lower(e) == "gif"@ {
            "image/gif"@
        } else if lower(e) == "bmp"@ {
            "image/bmp"@
        } else {
            "image/jpeg"@
        },
        None => "image/jpeg"@,
    }
}

/// The art of a cover file; none if it is empty.
pub fn cover_art(path: &str, bytes: Vec<u8>) -> (a: Option<Art>)
    ensures
        bytes@.len() == 0 <==> a is None,
        a matches Some(art) ==> is_art(art, bytes@, cover_mime(path@)),
{
    if bytes.len() == 0 {
        return None;
    }
    let mime = match extension_of(path) {
        Some(e) => {
            let l = lower_of(e.as_slice());
            if spells(l.as_slice(), "png") {
                "image/png"
            } else if spells(l.as_slice(), "webp") {
                "image/webp"
            } else if spells(l.as_slice(), "gif") {
                "image/gif"
            } else if spells(l.as_slice(), "bmp") {
                "image/bmp"
            } else {
                "image/jpeg"
            }
        },
        None => "image/jpeg",
    };
    let hash = hash_hex(bytes.as_slice());
    Some(Art { hash, mime: String::from_str(mime), bytes })
}

/// The extensions of audio files.
pub open spec fn is_audio_ext(e: Seq<char>) -> bool {
    ||| e == "flac"@
    ||| e == "wav"@
    ||| e == "wave"@
    ||| e == "aif"@
    ||| e == "aiff"@
    ||| e == "aifc"@
    ||| e == "m4a"@
    ||| e == "mp4"@
    ||| e == "alac"@
    ||| e == "ape"@
    ||| e == "wv"@
    ||| e == "mpc"@
    ||| e == "opus"@
    ||| e == "ogg"@
    ||| e == "oga"@
    ||| e == "mp3"@
    ||| e == "spx"@
    ||| e == "dsf"@
}

pub open spec fn audio_path(path: Seq<char>) -> bool {
    extension(path) matches Some(e) && is_audio_ext(lower(e))
}

/// Whether a path names an audio file.
pub fn is_audio(path: &str) -> (b: bool)
    ensures
        b == audio_path(path@),
{
    match extension_of(path) {
        None => false,
        Some(x) => {
            let l = lower_of(x.as_slice());
            let e = l.as_slice();
            spells(e, "flac") || spells(e, "wav") || spells(e, "wave") || spells(e, "aif")
                || spells(e, "aiff") || spells(e, "aifc") || spells(e, "m4a") || spells(e, "mp4")
                || spells(e, "alac") || spells(e, "ape") || spells(e, "wv") || spells(e, "mpc")
                || spells(e, "opus") || spells(e, "ogg") || spells(e, "oga") || spells(e, "mp3")
                || spells(e, "spx") || spells(e, "dsf")
        },
    }
}

/// Where a disc image with 2048-byte sectors holds its identifier.
pub const SACD_TOC_2048: u64 = 1_044_480;

/// Where one with 2064-byte sectors does.
pub const SACD_TOC_2064: u64 = 1_052_652;

pub open spec fn sacd_id() -> Seq<u8> {
    seq![0x53u8, 0x41u8, 0x43u8, 0x44u8, 0x4du8, 0x54u8, 0x4fu8, 0x43u8]
}

/// Whether these bytes are the identifier of a Super Audio CD.
pub fn is_sacd_id(id: &[u8]) -> (b: bool)
    ensures
        b == (id@ == sacd_id()),
{
    if id.len() != 8 {
        return false;
    }
    let b = id[0] == 0x53 && id[1] == 0x41 && id[2] == 0x43 && id[3] == 0x44 && id[4] == 0x4d
        && id[5] == 0x54 && id[6] == 0x4f && id[7] == 0x43;
    proof {
        if b {
            assert(id@ =~= sacd_id());
        }
    }
    b
}

/// A track of a disc image.
pub struct SacdTrackMeta {
    pub title: Option<String>,
    pub artist: Option<String>,
    pub duration_ms: u64,
}

/// The disc image as an album.
pub struct SacdAlbum {
    pub album: Option<String>,
    pub album_artist: Option<String>,
    pub channels: u32,
    pub tracks: Vec<SacdTrackMeta>,
}

/// Equal pictures are stored once: their hashes, and so their names, are the same.
pub proof fn law_equal_art_shares_a_name(a: Art, b: Art, mime_a: Seq<char>, mime_b: Seq<char>)
    requires
        is_art(a, a.bytes@, mime_a),
        is_art(b, b.bytes@, mime_b),
        a.bytes@ == b.bytes@,
    ensures
        a.hash@ == b.hash@,
{
}

/// A file that is not in the library, before anything was read from it.
pub fn track_stub(path: String, folder: String) -> (t: Track)
    ensures
        t == stub(path, folder),
{
    Track {
        id: -1,
        path,
        folder,
        title: None,
        artist: None,
        album_artist: None,
        album: None,
        composer: None,
        genre: None,
        track_no: None,
        disc_no: None,
        year: None,
        duration_ms: None,
        codec: None,
        sample_rate: None,
        bits: None,
        channels: None,
        art_hash: None,
        source_path: None,
        start_ms: None,
        loved: false,
    }
}

pub open spec fn stub(path: String, folder: String) -> Track {
    Track {
        id: -1i64,
        path,
        folder,
        title: None,
        artist: None,
        album_artist: None,
        album: None,
        composer: None,
        genre: None,
        track_no: None,
        disc_no: None,
        year: None,
        duration_ms: None,
        codec: None,
        sample_rate: None,
        bits: None,
        channels: None,
        art_hash: None,
        source_path: None,
        start_ms: None,
        loved: false,
    }
}

/// The track of a file that is not in the library, with what could be read from it.
pub fn track_from_path(path: String, folder: String, read: Option<Extracted>) -> (t: Track)
    ensures
        t == (match read {
            Some(e) => Track {
                title: e.title,
                artist: e.artist,
                album_artist: e.album_artist,
                album: e.album,
                composer: e.composer,
                genre: e.genre,
                track_no: e.track_no,
                disc_no: e.disc_no,
                year: e.year,
                duration_ms: e.duration_ms,
                codec: e.codec,
                sample_rate: e.sample_rate,
                bits: e.bits,
                channels: e.channels,
                ..stub(path, folder)
            },
            None => stub(path, folder),
        }),
{
    let mut t = track_stub(path, folder);
    if let Some(e) = read {
        t.title = e.title;
        t.artist = e.artist;
        t.album_artist = e.album_artist;
        t.album = e.album;
        t.composer = e.composer;
        t.genre = e.genre;
        t.track_no = e.track_no;
        t.disc_no = e.disc_no;
        t.year = e.year;
        t.duration_ms = e.duration_ms;
        t.codec = e.codec;
        t.sample_rate = e.sample_rate;
        t.bits = e.bits;
        t.channels = e.channels;
    }
    t
}

/// A text is taken without the white space around it; a blank one, like none, is nothing.
pub proof fn law_blank_text_is_none(v: Option<String>, r: Option<String>)
    requires
        call_ensures(norm, (&v,), r),
    ensures
        v is None ==> r is None,
        v matches Some(s) ==> {
            &&& crate::text::trimmed(s@).len() == 0 ==> r is None
            &&& crate::text::trimmed(s@).len() > 0 ==> (r matches Some(t) && t@
                == crate::text::trimmed(s@))
        },
{
}

/// Every kind of file has its name.
pub proof fn law_kinds_have_their_names(k: FileKind, s: String)
    requires
        call_ensures(codec_label, (&k,), s),
    ensures
        k is Flac ==> s@ == "FLAC"@,
        k is Wav ==> s@ == "WAV"@,
        k is Aiff ==> s@ == "AIFF"@,
        k is Mpeg ==> s@ == "MP3"@,
        k is Mp4 ==> s@ == "M4A"@,
        k is Opus ==> s@ == "Opus"@,
        k is Vorbis ==> s@ == "Vorbis"@,
        k is Speex ==> s@ == "Speex"@,
        k is Ape ==> s@ == "APE"@,
        k is WavPack ==> s@ == "WavPack"@,
        k is Mpc ==> s@ == "Musepack"@,
        k matches FileKind::Other(o) ==> s@ == o@,
{
}

/// Each field of a row comes from the field of the tag of its name, white space aside; the year
/// from the year if there is one, and else from the recording date.
pub proof fn law_tags_fill_their_fields(
    raw: RawAudio,
    e: Extracted,
    t: RawTag,
    y: &str,
    year: Option<i32>,
    label: String,
)
    requires
        call_ensures(extract, (raw,), e),
        call_ensures(parse_year, (y,), year),
        call_ensures(codec_label, (&raw.kind,), label),
        raw.tag == Some(t),
        t.year is Some ==> y@ == t.year->0@,
        t.year is None && t.recording_date is Some ==> y@ == t.recording_date->0@,
    ensures
        opt_text(e.title) == tidy(t.title),
        opt_text(e.artist) == tidy(t.artist),
        opt_text(e.album) == tidy(t.album),
        opt_text(e.genre) == tidy(t.genre),
        opt_text(e.album_artist) == tidy(t.album_artist),
        opt_text(e.composer) == tidy(t.composer),
        e.track_no == t.track_no,
        e.disc_no == t.disc_no,
        t.year is Some || t.recording_date is Some ==> e.year == year,
        t.year is None && t.recording_date is None ==> e.year is None,
        raw.duration_ms > 0 ==> e.duration_ms == Some(raw.duration_ms),
        raw.duration_ms == 0 ==> e.duration_ms is None,
        e.codec matches Some(c) && c@ == label@,
        e.sample_rate == raw.sample_rate,
        e.bits == raw.bits,
        e.channels == raw.channels,
{
}

/// A text without the white space around it, if any is left.
pub open spec fn tidy(v: Option<String>) -> Option<Seq<char>> {
    match v {
        Some(s) => if crate::text::trimmed(s@).len() > 0 {
            Some(crate::text::trimmed(s@))
        } else {
            None
        },
        None => None,
    }
}

/// The picture of a tag is kept as it is, under the hash of its bytes and with its type; a
/// picture without a type is taken for a JPEG, an empty one for none.
pub proof fn law_pictures_are_kept(raw: RawAudio, e: Extracted, t: RawTag)
    requires
        call_ensures(extract, (raw,), e),
        raw.tag == Some(t),
    ensures
        t.picture is None ==> e.art is None,
        t.picture matches Some(p) ==> {
            &&& p.data@.len() == 0 ==> e.art is None
            &&& p.data@.len() > 0 ==> {
                &&& e.art matches Some(a)
                &&& a.bytes@ == p.data@
                &&& a.hash@ == blake3_hex(p.data@)
                &&& p.mime matches Some(m) ==> a.mime@ == m@
                &&& p.mime is None ==> a.mime@ == "image/jpeg"@
            }
        },
{
}

/// A file without a tag says nothing of its music.
pub proof fn law_untagged_file_says_nothing(raw: RawAudio, e: Extracted, dsf: RawDsf, d: Extracted)
    requires
        call_ensures(extract, (raw,), e),
        call_ensures(extract_dsf, (dsf,), d),
        raw.tag is None,
        dsf.tag is None,
    ensures
        e.title is None && e.artist is None && e.album is None && e.genre is None,
        e.album_artist is None && e.composer is None && e.track_no is None && e.disc_no is None,
        e.year is None && e.art is None,
        d.title is None && d.artist is None && d.album is None && d.genre is None,
        d.album_artist is None && d.composer is None && d.track_no is None && d.disc_no is None,
        d.year is None && d.art is None,
{
}

/// A DSF file is called by the multiple of a compact disc's rate that its bits come at, and lasts
/// as long as its bytes: eight bits of a channel to the byte, at that rate.
pub proof fn law_dsf_lasts_as_long_as_its_bytes(raw: RawDsf, e: Extracted, m: nat)
    requires
        call_ensures(extract_dsf, (raw,), e),
        1 <= m,
        2_822_400 * m <= u32::MAX,
        raw.rate_multiple == m || raw.rate_multiple < 1 && m == 1,
    ensures
        e.codec matches Some(c) && c@ == "DSD"@ + decimal(64 * m),
        raw.channels == 0 || raw.audio_len == 0 ==> e.duration_ms is None,
        raw.channels > 0 && raw.audio_len > 0 ==> (e.duration_ms matches Some(ms) && ms
            == (raw.audio_len as nat / raw.channels as nat * 8 * 1000 / (2_822_400 * m)) as u64),
        e.sample_rate is None && e.bits is None && e.composer is None,
        e.channels == Some(raw.channels),
{
    assert(dsf_rate(raw.rate_multiple as int) == 2_822_400 * m);
    assert((2_822_400 * m) / 44_100 == 64 * m);
}

/// The fields of a DSF file come from the fields of its tag of their names.
pub proof fn law_dsf_tags_fill_their_fields(raw: RawDsf, e: Extracted, t: RawDsfTag)
    requires
        call_ensures(extract_dsf, (raw,), e),
        raw.tag == Some(t),
    ensures
        opt_text(e.title) == tidy(t.title),
        opt_text(e.artist) == tidy(t.artist),
        opt_text(e.album) == tidy(t.album),
        opt_text(e.genre) == tidy(t.genre),
        opt_text(e.album_artist) == tidy(t.album_artist),
        e.year == t.year,
        e.track_no == t.track_no,
        e.disc_no == t.disc_no,
        t.picture is None ==> e.art is None,
        t.picture matches Some(p) ==> {
            &&& p.data@.len() == 0 ==> e.art is None
            &&& p.data@.len() > 0 ==> {
                &&& e.art matches Some(a)
                &&& a.bytes@ == p.data@
                &&& a.hash@ == blake3_hex(p.data@)
                &&& p.mime matches Some(m) ==> m@.len() > 0 ==> a.mime@ == m@
                &&& p.mime is None || p.mime->0@.len() == 0 ==> a.mime@ == "image/jpeg"@
            }
        },
{
}

/// A file keeps its own picture and takes the folder's only if it has none; nothing else
/// changes.
pub proof fn law_own_picture_goes_first(e: Extracted, cover: Option<Art>, r: Extracted)
    requires
        call_ensures(with_folder_fallback, (e, cover), r),
    ensures
        e.art is Some ==> r == e,
        e.art is None ==> r.art == cover,
        r.title == e.title && r.artist == e.artist && r.album == e.album && r.album_artist
            == e.album_artist && r.composer == e.composer && r.genre == e.genre,
        r.track_no == e.track_no && r.disc_no == e.disc_no && r.year == e.year && r.duration_ms
            == e.duration_ms && r.codec == e.codec,
        r.sample_rate == e.sample_rate && r.bits == e.bits && r.channels == e.channels,
{
}

/// The names that covers go by, the preferred one first.
pub open spec fn cover_stems() -> Seq<Seq<char>> {
    seq!["cover"@, "folder"@, "front"@, "albumart"@, "album"@, "thumb"@]
}

/// A file of the `n`-th kind of name among covers, and a picture by its extension.
pub open spec fn is_cover_file(path: Seq<char>, n: int) -> bool {
    &&& 0 <= n < 6
    &&& file_stem(path) matches Some(s) && lower(s) == cover_stems()[n]
    &&& extension(path) matches Some(x) && (lower(x) == "jpg"@ || lower(x) == "jpeg"@ || lower(x)
        == "png"@ || lower(x) == "webp"@ || lower(x) == "bmp"@ || lower(x) == "gif"@)
}

proof fn lemma_cover_rank(path: Seq<char>, n: int)
    ensures
        is_cover_file(path, n) <==> file_rank(path) == Some(n as nat) && n >= 0,
        file_rank(path) matches Some(r) ==> r < 6,
{
    reveal_strlit("cover");
    reveal_strlit("folder");
    reveal_strlit("front");
    reveal_strlit("albumart");
    reveal_strlit("album");
    reveal_strlit("thumb");
    let c = cover_stems();
    assert(c[0] == "cover"@ && c[1] == "folder"@ && c[2] == "front"@ && c[3] == "albumart"@ && c[4]
        == "album"@ && c[5] == "thumb"@);
    assert("cover"@.len() == 5 && "cover"@[0] == 'c');
    assert("folder"@.len() == 6);
    assert("front"@.len() == 5 && "front"@[0] == 'f');
    assert("albumart"@.len() == 8);
    assert("album"@.len() == 5 && "album"@[0] == 'a');
    assert("thumb"@.len() == 5 && "thumb"@[0] == 't');
}

/// The cover of a folder is the picture with the most preferred name, in any case; of two of the
/// same kind the one that sorts first. A folder has none only if no file has such a name.
pub proof fn law_preferred_cover_is_taken(files: Vec<String>, r: Option<usize>, i: int, n: int)
    requires
        call_ensures(folder_cover, (&files,), r),
        0 <= i < files@.len(),
        is_cover_file(files@[i]@, n),
    ensures
        r matches Some(k) && {
            &&& k < files@.len()
            &&& exists|m: int| #[trigger] is_cover_file(files@[k as int]@, m) && m <= n && (m == n
                ==> files@[k as int]@ == files@[i]@ || sorts_before(
                files@[k as int]@,
                files@[i]@,
            ))
        },
{
    lemma_cover_rank(files@[i]@, n);
    let names = file_names(files@);
    assert(names[i] == files@[i]@);
    let args = (&files,);
    assert(file_rank(args.0@[i]@) is Some);
    let k = r->0 as int;
    let m = file_rank(files@[k]@)->0 as int;
    assert(names[i] == files@[k]@ || better_cover(files@[k]@, names[i]));
    lemma_cover_rank(files@[k]@, m);
    assert(is_cover_file(files@[k]@, m));
}

/// What is taken for a cover has the name and the extension of one.
pub proof fn law_cover_has_a_cover_name(files: Vec<String>, r: Option<usize>)
    requires
        call_ensures(folder_cover, (&files,), r),
    ensures
        r matches Some(k) ==> k < files@.len() && exists|n: int|
            is_cover_file(files@[k as int]@, n),
{
    if let Some(k) = r {
        let n = file_rank(files@[k as int]@)->0 as int;
        lemma_cover_rank(files@[k as int]@, n);
        assert(is_cover_file(files@[k as int]@, n));
    }
}

/// A cover file is kept as it is, under the hash of its bytes; its type goes by its extension. An
/// empty file is none.
pub proof fn law_cover_file_is_kept(path: &str, bytes: Vec<u8>, a: Option<Art>)
    requires
        call_ensures(cover_art, (path, bytes), a),
    ensures
        a is None <==> bytes@.len() == 0,
        a matches Some(art) ==> {
            let x = match extension(path@) {
                Some(e) => lower(e),
                None => Seq::empty(),
            };
            &&& art.bytes@ == bytes@
            &&& art.hash@ == blake3_hex(bytes@)
            &&& x == "png"@ ==> art.mime@ == "image/png"@
            &&& x == "webp"@ ==> art.mime@ == "image/webp"@
            &&& x == "gif"@ ==> art.mime@ == "image/gif"@
            &&& x == "bmp"@ ==> art.mime@ == "image/bmp"@
            &&& x != "png"@ && x != "webp"@ && x != "gif"@ && x != "bmp"@ ==> art.mime@
                == "image/jpeg"@
        },
{
    reveal_strlit("png");
    reveal_strlit("webp");
    reveal_strlit("gif");
    reveal_strlit("bmp");
    assert("png"@.len() == 3 && "png"@[0] == 'p');
    assert("webp"@.len() == 4);
    assert("gif"@.len() == 3 && "gif"@[0] == 'g');
    assert("bmp"@.len() == 3 && "bmp"@[0] == 'b');
}

/// A file is audio by its extension, in any case.
pub proof fn law_audio_is_told_by_extension(path: &str, b: bool)
    requires
        call_ensures(is_audio, (path,), b),
    ensures
        extension(path@) is None ==> !b,
        extension(path@) matches Some(e) ==> (b <==> {
            let x = lower(e);
            ||| x == "flac"@ || x == "wav"@ || x == "wave"@ || x == "aif"@ || x == "aiff"@
            ||| x == "aifc"@ || x == "m4a"@ || x == "mp4"@ || x == "alac"@ || x == "ape"@
            ||| x == "wv"@ || x == "mpc"@ || x == "opus"@ || x == "ogg"@ || x == "oga"@
            ||| x == "mp3"@ || x == "spx"@ || x == "dsf"@
        }),
{
}

/// A Super Audio CD is told by the eight letters of its table of contents.
pub proof fn law_sacd_is_told_by_its_letters(id: &[u8], b: bool)
    requires
        call_ensures(is_sacd_id, (id,), b),
    ensures
        b <==> id@.len() == 8 && id@[0] == 0x53 && id@[1] == 0x41 && id@[2] == 0x43 && id@[3]
            == 0x44 && id@[4] == 0x4d && id@[5] == 0x54 && id@[6] == 0x4f && id@[7] == 0x43,
{
    if id@.len() == 8 && id@[0] == 0x53 && id@[1] == 0x41 && id@[2] == 0x43 && id@[3] == 0x44
        && id@[4] == 0x4d && id@[5] == 0x54 && id@[6] == 0x4f && id@[7] == 0x43 {
        assert(id@ =~= sacd_id());
    }
}

/// A file outside the library has its path and what was read from it, no id, no source and no
/// part.
pub proof fn law_outside_file_has_what_was_read(
    path: String,
    folder: String,
    read: Option<Extracted>,
    t: Track,
    s: Track,
)
    requires
        call_ensures(track_from_path, (path, folder, read), t),
        call_ensures(track_stub, (path, folder), s),
    ensures
        t.path == path && t.folder == folder && t.id == -1 && t.source_path is None
            && t.start_ms is None && !t.loved && t.art_hash is None,
        s.path == path && s.folder == folder && s.id == -1 && s.source_path is None
            && s.start_ms is None && !s.loved && s.art_hash is None,
        read is None ==> t == s,
        s.title is None && s.artist is None && s.album_artist is None && s.album is None
            && s.composer is None && s.genre is None && s.track_no is None && s.disc_no is None
            && s.year is None && s.duration_ms is None && s.codec is None
            && s.sample_rate is None && s.bits is None && s.channels is None,
        read matches Some(e) ==> {
            &&& t.title == e.title && t.artist == e.artist && t.album_artist == e.album_artist
            &&& t.album == e.album && t.composer == e.composer && t.genre == e.genre
            &&& t.track_no == e.track_no && t.disc_no == e.disc_no && t.year == e.year
            &&& t.duration_ms == e.duration_ms && t.codec == e.codec
            &&& t.sample_rate == e.sample_rate && t.bits == e.bits && t.channels == e.channels
        },
{
}

/// The year of a tag is read like any other: the first four digits in a row.
pub proof fn law_tag_year_is_the_first(s: &str, c: &[char], r: Option<i32>, q: Option<i32>)
    requires
        call_ensures(parse_year, (s,), r),
        call_ensures(find_year, (c,), q),
        c@ == s@,
    ensures
        r == q,
{
}

/// A disc's table of contents lies in its five hundred and eleventh sector, behind the sector's
/// header where it has one.
pub proof fn law_toc_lies_in_its_sector(sector: u64, header: u64, at: u64)
    requires
        sector == 2048 && header == 0 && at == SACD_TOC_2048 || sector == 2064 && header == 12 && at
            == SACD_TOC_2064,
    ensures
        at == 510 * sector + header,
{
}

} // verus!
