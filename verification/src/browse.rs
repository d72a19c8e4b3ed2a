//! Reading the library: the order of listings, the shape of queries, the steps of a schema.
use crate::model::{Sort, Track};
use crate::text::{decimal, push_decimal};
use vstd::prelude::*;
use vstd::string::*;

verus! {

/// How many values one query binds at most.
pub const PARAM_CHUNK: usize = 900;

/// Sizes of the library.
#[derive(Clone, Copy, Debug, PartialEq, Eq, Structural)]
pub struct LibraryStats {
    pub tracks: u64,
    pub albums: u64,
    pub artists: u64,
    pub folders: u64,
}

/// `n` question marks with commas between.
pub open spec fn marks(n: nat) -> Seq<char>
    decreases n,
{
    if n == 0 {
        Seq::empty()
    } else if n == 1 {
        seq!['?']
    } else {
        marks((n - 1) as nat) + seq![',', '?']
    }
}

/// Placeholders for `n` bound values.
pub fn placeholders(n: usize) -> (s: String)
    ensures
        s@ == marks(n as nat),
{
    let mut s = String::new();
    let mut i: usize = 0;
    while i < n
        invariant
            i <= n,
            s@ == marks(i as nat),
        decreases n - i,
    {
        if i > 0 {
            s.push(',');
        }
        s.push('?');
        i = i + 1;
        assert(s@ =~= marks(i as nat));
    }
    s
}

/// How albums are ordered.
pub fn album_order(sort: Sort) -> (s: &'static str)
    ensures
        s@ == (match sort {
            Sort::Artist => "track.album_artist COLLATE NOCASE, track.album COLLATE NOCASE"@,
            Sort::Year => "MAX(track.year) DESC, track.album COLLATE NOCASE"@,
            _ => "track.album COLLATE NOCASE"@,
        }),
{
    match sort {
        Sort::Artist => "track.album_artist COLLATE NOCASE, track.album COLLATE NOCASE",
        Sort::Year => "MAX(track.year) DESC, track.album COLLATE NOCASE",
        Sort::Title => "track.album COLLATE NOCASE",
        Sort::Album => "track.album COLLATE NOCASE",
    }
}

/// How tracks are ordered.
pub fn track_order(sort: Sort) -> (s: &'static str)
    ensures
        s@ == (match sort {
            Sort::Title => "track.title COLLATE NOCASE"@,
            Sort::Artist =>
                "track.artist COLLATE NOCASE, track.album COLLATE NOCASE, track.disc_no, track.track_no"@,
            Sort::Album => "track.album COLLATE NOCASE, track.disc_no, track.track_no"@,
            Sort::Year =>
                "track.year DESC, track.album COLLATE NOCASE, track.disc_no, track.track_no"@,
        }),
{
    match sort {
        Sort::Title => "track.title COLLATE NOCASE",
        Sort::Artist => {
            "track.artist COLLATE NOCASE, track.album COLLATE NOCASE, track.disc_no, track.track_no"
        },
        Sort::Album => "track.album COLLATE NOCASE, track.disc_no, track.track_no",
        Sort::Year => "track.year DESC, track.album COLLATE NOCASE, track.disc_no, track.track_no",
    }
}

/// The clause that limits a listing.
pub fn limit_clause(limit: Option<usize>) -> (s: String)
    ensures
        s@ == (match limit {
            Some(n) => " LIMIT "@ + decimal(n as nat),
            None => Seq::empty(),
        }),
{
    match limit {
        Some(n) => {
            let mut s = String::from_str(" LIMIT ");
            push_decimal(&mut s, n as u64);
            s
        },
        None => String::new(),
    }
}

/// The place of the first row with an id, or the length.
pub open spec fn row_with(rows: Seq<Track>, id: i64) -> int
    decreases rows.len(),
{
    if rows.len() == 0 || rows[0].id == id {
        0
    } else {
        1 + row_with(rows.skip(1), id)
    }
}

/// The rows in the order of the ids; an id without a row is passed over, and so is one that
/// was taken before.
pub open spec fn in_order(ids: Seq<i64>, rows: Seq<Track>) -> Seq<Track>
    decreases ids.len(),
{
    if ids.len() == 0 {
        Seq::empty()
    } else {
        let k = row_with(rows, ids[0]);
        if k < rows.len() {
            seq![rows[k]] + in_order(ids.skip(1), rows.remove(k))
        } else {
            in_order(ids.skip(1), rows)
        }
    }
}

proof fn lemma_row_with(rows: Seq<Track>, id: i64, k: int)
    requires
        0 <= k <= rows.len(),
        forall|i: int| 0 <= i < k ==> (#[trigger] rows[i]).id != id,
        k < rows.len() ==> rows[k].id == id,
    ensures
        row_with(rows, id) == k,
    decreases rows.len(),
{
    if rows.len() > 0 && k > 0 {
        assert(rows[0].id != id);
        let t = rows.skip(1);
        assert forall|i: int| 0 <= i < k - 1 implies (#[trigger] t[i]).id != id by {
            assert(t[i] == rows[i + 1]);
        }
        lemma_row_with(t, id, k - 1);
    }
}

/// Puts the rows that a query gave, in any order, into the order of the ids.
pub fn load_tracks_by_ids(ids: &Vec<i64>, rows: Vec<Track>) -> (r: Vec<Track>)
    ensures
        r@ == in_order(ids@, rows@),
{
    let ghost all = rows@;
    let mut left = rows;
    let mut r: Vec<Track> = Vec::new();
    assert(ids@.skip(0) =~= ids@);
    assert(Seq::<Track>::empty() + in_order(ids@, all) =~= in_order(ids@, all));
    for n in 0..ids.len()
        invariant
            in_order(ids@, all) == r@ + in_order(ids@.skip(n as int), left@),
    {
        let id: i64 = ids[n];
        let ghost tail = ids@.skip(n as int);
        assert(tail[0] == id);
        assert(tail.skip(1) =~= ids@.skip(n + 1));
        let mut k: usize = 0;
        while k < left.len() && left[k].id != id
            invariant
                k <= left@.len(),
                forall|i: int| 0 <= i < k ==> (#[trigger] left@[i]).id != id,
            decreases left@.len() - k,
        {
            k = k + 1;
        }
        proof {
            lemma_row_with(left@, id, k as int);
        }
        if k < left.len() {
            let ghost before = left@;
            let ghost r0 = r@;
            let t = left.remove(k);
            r.push(t);
            assert(r0 + (seq![t] + in_order(tail.skip(1), before.remove(k as int))) =~= r@
                + in_order(ids@.skip(n + 1), left@));
        }
    }
    assert(r@ + Seq::<Track>::empty() =~= r@);
    r
}

/// The columns of a track's row.
pub struct TrackRow {
    pub id: i64,
    pub path: String,
    pub folder: String,
    pub title: Option<String>,
    pub artist: Option<String>,
    pub album_artist: Option<String>,
    pub album: Option<String>,
    pub composer: Option<String>,
    pub genre: Option<String>,
    pub track_no: Option<u32>,
    pub disc_no: Option<u32>,
    pub year: Option<i32>,
    pub duration_ms: Option<i64>,
    pub codec: Option<String>,
    pub sample_rate: Option<i64>,
    pub bits: Option<i64>,
    pub channels: Option<i64>,
    pub art_hash: Option<String>,
    pub source_path: Option<String>,
    pub start_ms: Option<i64>,
    pub loved: bool,
}

/// A stored number as an unsigned one of 64 bits.
pub open spec fn unsigned64(v: Option<i64>) -> Option<u64> {
    match v {
        Some(n) => Some(n as u64),
        None => None,
    }
}

/// A stored number as an unsigned one of 32 bits.
pub open spec fn unsigned32(v: Option<i64>) -> Option<u32> {
    match v {
        Some(n) => Some(n as u32),
        None => None,
    }
}

fn to_u64(v: Option<i64>) -> (r: Option<u64>)
    ensures
        r == unsigned64(v),
{
    match v {
        Some(n) => Some(#[verifier::truncate] (n as u64)),
        None => None,
    }
}

fn to_u32(v: Option<i64>) -> (r: Option<u32>)
    ensures
        r == unsigned32(v),
{
    match v {
        Some(n) => Some(#[verifier::truncate] (n as u32)),
        None => None,
    }
}

/// The track of a row. A track that is a file of its own is its own source.
pub fn row_to_track(r: TrackRow) -> (t: Track)
    ensures
        t == (Track {
            id: r.id,
            path: r.path,
            folder: r.folder,
            title: r.title,
            artist: r.artist,
            album_artist: r.album_artist,
            album: r.album,
            composer: r.composer,
            genre: r.genre,
            track_no: r.track_no,
            disc_no: r.disc_no,
            year: r.year,
            duration_ms: unsigned64(r.duration_ms),
            codec: r.codec,
            sample_rate: unsigned32(r.sample_rate),
            bits: unsigned32(r.bits),
            channels: unsigned32(r.channels),
            art_hash: r.art_hash,
            source_path: match r.source_path {
                Some(s) => Some(s),
                None => Some(r.path),
            },
            start_ms: unsigned64(r.start_ms),
            loved: r.loved,
        }),
{
    let source_path = match r.source_path {
        Some(s) => Some(s),
        None => Some(r.path.clone()),
    };
    Track {
        id: r.id,
        path: r.path,
        folder: r.folder,
        title: r.title,
        artist: r.artist,
        album_artist: r.album_artist,
        album: r.album,
        composer: r.composer,
        genre: r.genre,
        track_no: r.track_no,
        disc_no: r.disc_no,
        year: r.year,
        duration_ms: to_u64(r.duration_ms),
        codec: r.codec,
        sample_rate: to_u32(r.sample_rate),
        bits: to_u32(r.bits),
        channels: to_u32(r.channels),
        art_hash: r.art_hash,
        source_path,
        start_ms: to_u64(r.start_ms),
        loved: r.loved,
    }
}

/// The version of the schema that this player writes.
pub const SCHEMA_VERSION: i64 = 6;

/// One step that brings a database up to date.
#[derive(Clone, Copy, Debug, PartialEq, Eq, Structural)]
pub enum Migration {
    /// Create everything.
    Base,
    /// Drop the full-text index of the first version.
    DropFts,
    /// Create the play history.
    PlayHistory,
    /// Add the columns for tracks inside other files.
    SourceColumns,
    /// Create the list of loved tracks.
    Loved,
    /// Index tracks by artist.
    ArtistIndex,
    /// Note the new version.
    SetVersion,
}

/// The step is needed on a database of version `v`.
pub open spec fn needed(m: Migration, v: int) -> bool {
    match m {
        Migration::Base => v < 1,
        Migration::DropFts => v == 1,
        Migration::PlayHistory => v < 3,
        Migration::SourceColumns => v < 4,
        Migration::Loved => v < 5,
        Migration::ArtistIndex => v < 6,
        Migration::SetVersion => v < SCHEMA_VERSION,
    }
}

/// All steps in the order they run.
pub open spec fn all_steps() -> Seq<Migration> {
    seq![
        Migration::Base,
        Migration::DropFts,
        Migration::PlayHistory,
        Migration::SourceColumns,
        Migration::Loved,
        Migration::ArtistIndex,
        Migration::SetVersion,
    ]
}

/// The steps among the first `n` that are needed.
pub open spec fn steps(v: int, n: nat) -> Seq<Migration>
    decreases n,
{
    if n == 0 {
        Seq::empty()
    } else {
        let m = all_steps()[n - 1];
        let rest = steps(v, (n - 1) as nat);
        if needed(m, v) {
            rest.push(m)
        } else {
            rest
        }
    }
}

/// The steps that a database of version `v` needs, in order.
pub fn migrate(v: i64) -> (r: Vec<Migration>)
    ensures
        r@ == steps(v as int, 7),
{
    let mut r: Vec<Migration> = Vec::new();
    proof {
        reveal_with_fuel(steps, 8);
    }
    if v < 1 {
        r.push(Migration::Base);
    }
    if v == 1 {
        r.push(Migration::DropFts);
    }
    if v < 3 {
        r.push(Migration::PlayHistory);
    }
    if v < 4 {
        r.push(Migration::SourceColumns);
    }
    if v < 5 {
        r.push(Migration::Loved);
    }
    if v < 6 {
        r.push(Migration::ArtistIndex);
    }
    if v < SCHEMA_VERSION {
        r.push(Migration::SetVersion);
    }
    assert(r@ =~= steps(v as int, 7));
    r
}

/// Bringing a database up to date is done once: at the current version nothing is needed.
pub proof fn law_current_schema_needs_nothing(v: int)
    requires
        v >= SCHEMA_VERSION,
    ensures
        steps(v, 7) == Seq::<Migration>::empty(),
{
    reveal_with_fuel(steps, 8);
}

/// The order of search results survives loading them: where every id has exactly one row,
/// the rows come out as the ids say.
pub proof fn law_loading_keeps_the_order(ids: Seq<i64>, rows: Seq<Track>)
    requires
        ids.len() == rows.len(),
        ids.no_duplicates(),
        forall|i: int| 0 <= i < ids.len() ==> row_with(rows, #[trigger] ids[i]) < rows.len(),
    ensures
        in_order(ids, rows).len() == ids.len(),
        forall|i: int| 0 <= i < ids.len() ==> (#[trigger] in_order(ids, rows)[i]).id == ids[i],
    decreases ids.len(),
{
    if ids.len() > 0 {
        let id = ids[0];
        lemma_row_found(rows, id);
        let k = row_with(rows, id);
        let rest = rows.remove(k);
        let tail = ids.skip(1);
        assert forall|i: int| 0 <= i < tail.len() implies row_with(rest, #[trigger] tail[i])
            < rest.len() by {
            assert(tail[i] == ids[i + 1]);
            assert(ids[i + 1] != ids[0]);
            lemma_row_found(rows, tail[i]);
            lemma_row_kept(rows, k, tail[i]);
        }
        assert(tail.no_duplicates());
        law_loading_keeps_the_order(tail, rest);
        let r = in_order(ids, rows);
        assert forall|i: int| 0 <= i < ids.len() implies (#[trigger] r[i]).id == ids[i] by {
            if i > 0 {
                assert(r[i] == in_order(tail, rest)[i - 1]);
                assert(tail[i - 1] == ids[i]);
            }
        }
    }
}

proof fn lemma_row_found(rows: Seq<Track>, id: i64)
    requires
        row_with(rows, id) < rows.len(),
    ensures
        0 <= row_with(rows, id),
        rows[row_with(rows, id)].id == id,
    decreases rows.len(),
{
    if rows.len() > 0 && rows[0].id != id {
        lemma_row_found(rows.skip(1), id);
    }
}

proof fn lemma_row_kept(rows: Seq<Track>, k: int, id: i64)
    requires
        0 <= k < rows.len(),
        rows[k].id != id,
        0 <= row_with(rows, id) < rows.len(),
    ensures
        row_with(rows.remove(k), id) < rows.remove(k).len(),
    decreases rows.len(),
{
    lemma_row_found(rows, id);
    let r = rows.remove(k);
    if rows[0].id == id {
        assert(r[0] == rows[0]);
    } else if k == 0 {
        assert(r =~= rows.skip(1));
    } else {
        assert(r[0] == rows[0]);
        assert(r.skip(1) =~= rows.skip(1).remove(k - 1));
        lemma_row_kept(rows.skip(1), k - 1, id);
    }
}

/// There is a question mark for each bound value, with a comma between each two.
pub proof fn law_a_mark_for_each_value(n: usize, s: String, k: int)
    requires
        call_ensures(placeholders, (n,), s),
    ensures
        n == 0 ==> s@.len() == 0,
        n > 0 ==> s@.len() == 2 * n - 1,
        0 <= k < n ==> s@[2 * k] == '?',
        0 <= k && k + 1 < n ==> s@[2 * k + 1] == ',',
{
    lemma_marks(n as nat, k);
}

proof fn lemma_marks(n: nat, k: int)
    ensures
        n == 0 ==> marks(n).len() == 0,
        n > 0 ==> marks(n).len() == 2 * n - 1,
        0 <= k < n ==> marks(n)[2 * k] == '?',
        0 <= k && k + 1 < n ==> marks(n)[2 * k + 1] == ',',
    decreases n,
{
    if n > 1 {
        lemma_marks((n - 1) as nat, k);
    }
}

/// Lists are ordered as asked for, with ties broken as an album is read: by album, disc and
/// track; the years run backwards. A limit is written behind.
pub proof fn law_lists_are_ordered_as_asked(
    sort: Sort,
    a: &str,
    t: &str,
    limit: Option<usize>,
    l: String,
)
    requires
        call_ensures(album_order, (sort,), a),
        call_ensures(track_order, (sort,), t),
        call_ensures(limit_clause, (limit,), l),
    ensures
        sort == Sort::Title || sort == Sort::Album ==> a@ == "track.album COLLATE NOCASE"@,
        sort == Sort::Artist ==> a@
            == "track.album_artist COLLATE NOCASE, track.album COLLATE NOCASE"@,
        sort == Sort::Year ==> a@ == "MAX(track.year) DESC, track.album COLLATE NOCASE"@,
        sort == Sort::Title ==> t@ == "track.title COLLATE NOCASE"@,
        sort == Sort::Artist ==> t@
            == "track.artist COLLATE NOCASE, track.album COLLATE NOCASE, track.disc_no, track.track_no"@,
        sort == Sort::Album ==> t@
            == "track.album COLLATE NOCASE, track.disc_no, track.track_no"@,
        sort == Sort::Year ==> t@
            == "track.year DESC, track.album COLLATE NOCASE, track.disc_no, track.track_no"@,
        limit is None ==> l@.len() == 0,
        limit matches Some(n) ==> l@ == " LIMIT "@ + decimal(n as nat),
{
}

/// Rows come out in the order of the ids, one for each, whatever order the query gave them in.
pub proof fn law_rows_follow_the_ids(ids: Vec<i64>, rows: Vec<Track>, r: Vec<Track>, k: int)
    requires
        call_ensures(load_tracks_by_ids, (&ids, rows), r),
        ids@.len() == rows@.len(),
        ids@.no_duplicates(),
        forall|i: int|
            0 <= i < ids@.len() ==> exists|j: int|
                0 <= j < rows@.len() && (#[trigger] rows@[j]).id == #[trigger] ids@[i],
        0 <= k < ids@.len(),
    ensures
        r@.len() == ids@.len(),
        r@[k].id == ids@[k],
        rows@.contains(r@[k]),
{
    assert forall|i: int| 0 <= i < ids@.len() implies row_with(rows@, #[trigger] ids@[i])
        < rows@.len() by {
        let j = choose|j: int| 0 <= j < rows@.len() && (#[trigger] rows@[j]).id == ids@[i];
        lemma_row_exists(rows@, ids@[i], j);
    }
    law_loading_keeps_the_order(ids@, rows@);
    lemma_in_order_from(ids@, rows@, k);
}

proof fn lemma_row_exists(rows: Seq<Track>, id: i64, j: int)
    requires
        0 <= j < rows.len(),
        rows[j].id == id,
    ensures
        0 <= row_with(rows, id) <= j,
    decreases rows.len(),
{
    if rows[0].id != id {
        assert(rows.skip(1)[j - 1] == rows[j]);
        lemma_row_exists(rows.skip(1), id, j - 1);
    }
}

proof fn lemma_in_order_from(ids: Seq<i64>, rows: Seq<Track>, k: int)
    requires
        0 <= k < in_order(ids, rows).len(),
    ensures
        rows.contains(in_order(ids, rows)[k]),
    decreases ids.len(),
{
    if ids.len() > 0 {
        let j = row_with(rows, ids[0]);
        if j < rows.len() {
            lemma_row_found(rows, ids[0]);
            let less = rows.remove(j);
            let tail = in_order(ids.skip(1), less);
            if k == 0 {
                assert(in_order(ids, rows)[0] == rows[j]);
            } else {
                lemma_in_order_from(ids.skip(1), less, k - 1);
                assert(in_order(ids, rows)[k] == tail[k - 1]);
                let m = choose|m: int| 0 <= m < less.len() && less[m] == tail[k - 1];
                if m < j {
                    assert(rows[m] == less[m]);
                } else {
                    assert(rows[m + 1] == less[m]);
                }
            }
        } else {
            lemma_in_order_from(ids.skip(1), rows, k);
        }
    }
}

/// A row becomes the track it describes, field by field; a track that is a file of its own is its
/// own source.
pub proof fn law_row_becomes_its_track(r: TrackRow, t: Track)
    requires
        call_ensures(row_to_track, (r,), t),
    ensures
        t.id == r.id && t.path == r.path && t.folder == r.folder && t.title == r.title,
        t.artist == r.artist && t.album_artist == r.album_artist && t.album == r.album,
        t.composer == r.composer && t.genre == r.genre && t.track_no == r.track_no,
        t.disc_no == r.disc_no && t.year == r.year && t.codec == r.codec && t.art_hash
            == r.art_hash && t.loved == r.loved,
        t.duration_ms is Some <==> r.duration_ms is Some,
        r.duration_ms matches Some(n) ==> n >= 0 ==> t.duration_ms == Some(n as u64),
        t.start_ms is Some <==> r.start_ms is Some,
        r.start_ms matches Some(n) ==> n >= 0 ==> t.start_ms == Some(n as u64),
        t.sample_rate is Some <==> r.sample_rate is Some,
        r.sample_rate matches Some(n) ==> 0 <= n <= u32::MAX ==> t.sample_rate == Some(n as u32),
        t.bits is Some <==> r.bits is Some,
        r.bits matches Some(n) ==> 0 <= n <= u32::MAX ==> t.bits == Some(n as u32),
        t.channels is Some <==> r.channels is Some,
        r.channels matches Some(n) ==> 0 <= n <= u32::MAX ==> t.channels == Some(n as u32),
        r.source_path is Some ==> t.source_path == r.source_path,
        r.source_path is None ==> t.source_path == Some(r.path),
{
}

/// A database is brought up to date by the steps it lacks, each once and in order, and its version
/// is set last; a current one needs none. An empty one needs all but the step that undoes what
/// only the first version had.
pub proof fn law_schema_steps_run_in_order(v: i64, r: Vec<Migration>)
    requires
        call_ensures(migrate, (v,), r),
    ensures
        v >= 6 ==> r@.len() == 0,
        v == 5 ==> r@ == seq![Migration::ArtistIndex, Migration::SetVersion],
        v == 4 ==> r@ == seq![Migration::Loved, Migration::ArtistIndex, Migration::SetVersion],
        v == 3 ==> r@ == seq![
            Migration::SourceColumns,
            Migration::Loved,
            Migration::ArtistIndex,
            Migration::SetVersion,
        ],
        v == 2 ==> r@ == seq![
            Migration::PlayHistory,
            Migration::SourceColumns,
            Migration::Loved,
            Migration::ArtistIndex,
            Migration::SetVersion,
        ],
        v == 1 ==> r@ == seq![
            Migration::DropFts,
            Migration::PlayHistory,
            Migration::SourceColumns,
            Migration::Loved,
            Migration::ArtistIndex,
            Migration::SetVersion,
        ],
        v <= 0 ==> r@ == seq![
            Migration::Base,
            Migration::PlayHistory,
            Migration::SourceColumns,
            Migration::Loved,
            Migration::ArtistIndex,
            Migration::SetVersion,
        ],
{
    reveal_with_fuel(steps, 8);
}

/// Rows are taken id by id: the first row of the first id comes first, before what the other ids
/// get of the other rows; an id without a row gets nothing.
pub proof fn law_rows_are_taken_id_by_id(
    ids: Vec<i64>,
    rest: Vec<i64>,
    rows: Vec<Track>,
    less: Vec<Track>,
    r: Vec<Track>,
    q: Vec<Track>,
    k: int,
)
    requires
        call_ensures(load_tracks_by_ids, (&ids, rows), r),
        call_ensures(load_tracks_by_ids, (&rest, less), q),
    ensures
        ids@.len() == 0 ==> r@.len() == 0,
        ids@.len() > 0 && rest@ == ids@.skip(1) && 0 <= k < rows@.len() && rows@[k].id == ids@[0]
            && (forall|i: int| 0 <= i < k ==> (#[trigger] rows@[i]).id != ids@[0]) && less@
            == rows@.remove(k) ==> r@ == seq![rows@[k]] + q@,
        ids@.len() > 0 && rest@ == ids@.skip(1) && (forall|i: int|
            0 <= i < rows@.len() ==> (#[trigger] rows@[i]).id != ids@[0]) && less@ == rows@ ==> r@
            == q@,
{
    if ids@.len() > 0 {
        if 0 <= k < rows@.len() && rows@[k].id == ids@[0] && (forall|i: int|
            0 <= i < k ==> (#[trigger] rows@[i]).id != ids@[0]) {
            lemma_row_with(rows@, ids@[0], k);
        }
        if forall|i: int| 0 <= i < rows@.len() ==> (#[trigger] rows@[i]).id != ids@[0] {
            lemma_row_with(rows@, ids@[0], rows@.len() as int);
        }
    }
}

} // verus!
