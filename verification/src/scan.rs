//! Keeping the library in step with the files: what changed, what moved, what is gone.
use crate::cue::{opt_text, CueSheet};
use crate::extract::{audio_path, is_audio, Extracted, SacdAlbum};
use crate::model::{clone_opt, ScanStats, Track};
use crate::paths::{comps, comps_of, extension, extension_of, joined_path, join_path};
use crate::text::{
    all_digits, chars_eq, chars_of, digits_value, is_digit, lemma_padded_value, lower, lower_of,
    padded, parse_numeral, push_padded, string_of,
};
use std::collections::{HashMap, HashSet};
use vstd::prelude::*;
use vstd::string::*;

verus! {

broadcast use vstd::std_specs::hash::group_hash_axioms;

/// What the library remembers of a file.
#[derive(Clone, Copy, Debug, PartialEq, Eq, Structural)]
pub struct FileState {
    pub id: i64,
    pub mtime_ns: i64,
    pub size: i64,
}

/// A file to be written to the library.
pub struct Row {
    pub existing_id: Option<i64>,
    pub path: String,
    pub folder: String,
    pub mtime_ns: i64,
    pub size: i64,
    pub art_hash: Option<String>,
    pub e: Extracted,
}

/// What a file turned out to be.
pub enum Msg {
    Unchanged(i64),
    Upsert(Row),
    Failed,
}

/// What a directory entry is to the scan.
#[derive(Clone, Copy, Debug, PartialEq, Eq, Structural)]
pub enum Candidate {
    Audio,
    Cue,
    /// A disc image, if its identifier says so.
    Iso,
    Other,
}

pub open spec fn ext_is(path: Seq<char>, ext: Seq<char>) -> bool {
    extension(path) matches Some(e) && lower(e) == lower(ext)
}

/// Whether a path has an extension, in any case.
pub fn has_ext(path: &str, ext: &str) -> (b: bool)
    ensures
        b == ext_is(path@, ext@),
{
    match extension_of(path) {
        None => false,
        Some(e) => {
            let c = chars_of(ext);
            let a = lower_of(e.as_slice());
            let b = lower_of(c.as_slice());
            chars_eq(a.as_slice(), b.as_slice())
        },
    }
}

/// Sorts a directory entry by its name.
pub fn candidate(path: &str) -> (c: Candidate)
    ensures
        c == (if audio_path(path@) {
            Candidate::Audio
        } else if ext_is(path@, "cue"@) {
            Candidate::Cue
        } else if ext_is(path@, "iso"@) {
            Candidate::Iso
        } else {
            Candidate::Other
        }),
{
    if is_audio(path) {
        Candidate::Audio
    } else if has_ext(path, "cue") {
        Candidate::Cue
    } else if has_ext(path, "iso") {
        Candidate::Iso
    } else {
        Candidate::Other
    }
}

/// The files that the given sheets, each with its folder, refer to.
pub open spec fn referenced(sheets: Seq<(String, CueSheet)>, path: Seq<char>) -> bool {
    exists|s: int, f: int|
        0 <= s < sheets.len() && 0 <= f < sheets[s].1.files@.len() && comps(path) == comps(
            joined_path(#[trigger] sheets[s].0@, #[trigger] sheets[s].1.files@[f].name@),
        )
}

/// Whether one of the sheets refers to a file.
pub fn is_referenced(sheets: &Vec<(String, CueSheet)>, path: &str) -> (b: bool)
    ensures
        b == referenced(sheets@, path@),
{
    let mine = comps_of(path);
    for s in 0..sheets.len()
        invariant
            views2(mine@) == comps(path@),
            forall|t: int, f: int|
                0 <= t < s && 0 <= f < sheets@[t].1.files@.len() ==> comps(path@) != comps(
                    joined_path(#[trigger] sheets@[t].0@, #[trigger] sheets@[t].1.files@[f].name@),
                ),
    {
        let dir = sheets[s].0.as_str();
        let files = &sheets[s].1.files;
        for f in 0..files.len()
            invariant
                s < sheets@.len(),
                dir@ == sheets@[s as int].0@,
                files@ == sheets@[s as int].1.files@,
                views2(mine@) == comps(path@),
                forall|g: int|
                    0 <= g < f ==> comps(path@) != comps(
                        joined_path(sheets@[s as int].0@, #[trigger] files@[g].name@),
                    ),
        {
            let full = join_path(dir, files[f].name.as_str());
            let other = comps_of(full.as_str());
            if same_comps(&mine, &other) {
                assert(comps(path@) == comps(
                    joined_path(
                        sheets@[s as int].0@,
                        sheets@[s as int].1.files@[f as int].name@,
                    ),
                ));
                return true;
            }
        }
    }
    false
}

pub open spec fn views2(v: Seq<Vec<char>>) -> Seq<Seq<char>> {
    v.map_values(|x: Vec<char>| x@)
}

fn same_comps(a: &Vec<Vec<char>>, b: &Vec<Vec<char>>) -> (r: bool)
    ensures
        r == (views2(a@) == views2(b@)),
{
    if a.len() != b.len() {
        assert(views2(a@).len() != views2(b@).len());
        return false;
    }
    for i in 0..a.len()
        invariant
            a@.len() == b@.len(),
            forall|j: int| 0 <= j < i ==> views2(a@)[j] == views2(b@)[j],
    {
        if !chars_eq(a[i].as_slice(), b[i].as_slice()) {
            assert(views2(a@)[i as int] != views2(b@)[i as int]);
            return false;
        }
    }
    assert(views2(a@) =~= views2(b@));
    true
}

/// The audio files that no sheet refers to; the others are the sheets' own.
pub fn unreferenced(paths: Vec<String>, sheets: &Vec<(String, CueSheet)>) -> (r: Vec<String>)
    ensures
        r@ == paths@.filter(|p: String| !referenced(sheets@, p@)),
{
    let mut r: Vec<String> = Vec::new();
    for i in 0..paths.len()
        invariant
            r@ == paths@.take(i as int).filter(|p: String| !referenced(sheets@, p@)),
    {
        proof {
            reveal(Seq::filter);
            let t = paths@.take(i + 1);
            assert(t.drop_last() =~= paths@.take(i as int));
            assert(t.last() == paths@[i as int]);
        }
        if !is_referenced(sheets, paths[i].as_str()) {
            r.push(paths[i].clone());
        }
    }
    assert(paths@.take(paths@.len() as int) =~= paths@);
    r
}

/// What is to be done about a file.
#[derive(Clone, Copy, Debug, PartialEq, Eq, Structural)]
pub enum Change {
    /// Nothing: it is in the library as it stands.
    Unchanged(i64),
    /// Read it again, and write it to this entry, or to a new one.
    Read(Option<i64>),
}

/// A file is unchanged if the library knows it with this time and size, unless a full scan
/// is asked for.
pub fn build_row(known: Option<FileState>, force: bool, mtime_ns: i64, size: i64) -> (c: Change)
    ensures
        c == (match known {
            Some(fs) => if !force && fs.mtime_ns == mtime_ns && fs.size == size {
                Change::Unchanged(fs.id)
            } else {
                Change::Read(Some(fs.id))
            },
            None => Change::Read(None),
        }),
{
    match known {
        Some(fs) => if !force && fs.mtime_ns == mtime_ns && fs.size == size {
            Change::Unchanged(fs.id)
        } else {
            Change::Read(Some(fs.id))
        },
        None => Change::Read(None),
    }
}

/// Collects the outcome of every file, then settles what is new, moved and gone.
pub struct ScanWriter {
    pub stats: ScanStats,
    /// The entries that still have their file.
    pub seen: HashSet<i64>,
    /// The files without an entry.
    pub news: Vec<Row>,
}

/// What to write for a file at once.
pub enum WriteOp {
    Nothing,
    Update(i64, Row),
}

/// How the new files and the gone entries are settled.
pub struct NewsPlan {
    /// For each new file the entry that it moved from, if it did.
    pub moves: Vec<Option<i64>>,
    /// The entries to delete.
    pub removed: Vec<i64>,
}

/// The entries whose file was not seen, in order.
pub open spec fn gone(existing: Seq<FileState>, seen: Set<i64>) -> Seq<FileState>
    decreases existing.len(),
{
    if existing.len() == 0 {
        Seq::empty()
    } else {
        let rest = gone(existing.drop_last(), seen);
        if seen.contains(existing.last().id) {
            rest
        } else {
            rest.push(existing.last())
        }
    }
}

/// The ids of the entries with a time and size, in order.
pub open spec fn with_sig(s: Seq<FileState>, mtime: i64, size: i64) -> Seq<i64>
    decreases s.len(),
{
    if s.len() == 0 {
        Seq::empty()
    } else {
        let rest = with_sig(s.drop_last(), mtime, size);
        if s.last().mtime_ns == mtime && s.last().size == size {
            rest.push(s.last().id)
        } else {
            rest
        }
    }
}

/// How many of the first `n` new files have a time and size.
pub open spec fn claims(news: Seq<Row>, n: int, mtime: i64, size: i64) -> nat
    decreases n,
{
    if n <= 0 {
        0
    } else {
        claims(news, n - 1, mtime, size) + if news[n - 1].mtime_ns == mtime && news[n - 1].size
            == size {
            1nat
        } else {
            0nat
        }
    }
}

/// Where new file `i` moved from: of the gone entries with its time and size, the first that
/// no earlier new file has claimed.
pub open spec fn moved_from(gone: Seq<FileState>, news: Seq<Row>, i: int) -> Option<i64> {
    let fit = with_sig(gone, news[i].mtime_ns, news[i].size);
    let claimed = claims(news, i, news[i].mtime_ns, news[i].size);
    if claimed < fit.len() {
        Some(fit[claimed as int])
    } else {
        None
    }
}

/// The ids among gone entries that no new file moved from, in order.
pub open spec fn left_over(gone: Seq<FileState>, moves: Seq<Option<i64>>) -> Seq<i64>
    decreases gone.len(),
{
    if gone.len() == 0 {
        Seq::empty()
    } else {
        let rest = left_over(gone.drop_last(), moves);
        if moves.contains(Some(gone.last().id)) {
            rest
        } else {
            rest.push(gone.last().id)
        }
    }
}

/// How many of the moves are moves.
pub open spec fn count_moves(moves: Seq<Option<i64>>) -> nat
    decreases moves.len(),
{
    if moves.len() == 0 {
        0
    } else {
        count_moves(moves.drop_last()) + if moves.last() is Some {
            1nat
        } else {
            0nat
        }
    }
}

pub open spec fn sig_key(mtime: i64, size: i64) -> i128 {
    (mtime * 0x1_0000_0000_0000_0000 + (size + 0x8000_0000_0000_0000)) as i128
}

proof fn lemma_key_range(mtime: i64, size: i64)
    ensures
        i128::MIN <= mtime * 0x1_0000_0000_0000_0000 + (size + 0x8000_0000_0000_0000) <= i128::MAX,
{
}

fn key_of(mtime: i64, size: i64) -> (k: i128)
    ensures
        k == sig_key(mtime, size),
{
    mtime as i128 * 0x1_0000_0000_0000_0000 + (size as i128 + 0x8000_0000_0000_0000)
}

/// The map has the ids of the entries with a time and size.
spec fn listed(sigs: Map<i128, Vec<i64>>, s: Seq<FileState>, mtime: i64, size: i64) -> bool {
    let k = sig_key(mtime, size);
    if with_sig(s, mtime, size).len() == 0 {
        !sigs.contains_key(k)
    } else {
        sigs.contains_key(k) && sigs[k]@ == with_sig(s, mtime, size)
    }
}

/// The map has the number of claims by the first `n` new files.
spec fn counted(taken: Map<i128, usize>, news: Seq<Row>, n: int, mtime: i64, size: i64) -> bool {
    let k = sig_key(mtime, size);
    claims(news, n, mtime, size) == if taken.contains_key(k) {
        taken[k] as nat
    } else {
        0
    }
}

impl ScanWriter {
    pub fn new() -> (w: Self)
        ensures
            w.stats == (ScanStats {
                added: 0,
                updated: 0,
                moved: 0,
                removed: 0,
                unchanged: 0,
                errors: 0,
                elapsed_ms: 0,
            }),
            w.seen@ == Set::<i64>::empty(),
            w.news@ == Seq::<Row>::empty(),
    {
        ScanWriter { stats: ScanStats::default(), seen: HashSet::new(), news: Vec::new() }
    }

    /// Takes the outcome of one file.
    pub fn on_msg(&mut self, msg: Msg) -> (op: WriteOp)
        requires
            old(self).stats.errors < u64::MAX,
            old(self).stats.unchanged < u64::MAX,
            old(self).stats.updated < u64::MAX,
        ensures
            match msg {
                Msg::Failed => {
                    &&& op is Nothing
                    &&& final(self).stats == (ScanStats {
                        errors: (old(self).stats.errors + 1) as u64,
                        ..old(self).stats
                    })
                    &&& final(self).seen@ == old(self).seen@
                    &&& final(self).news@ == old(self).news@
                },
                Msg::Unchanged(id) => {
                    &&& op is Nothing
                    &&& final(self).stats == (ScanStats {
                        unchanged: (old(self).stats.unchanged + 1) as u64,
                        ..old(self).stats
                    })
                    &&& final(self).seen@ == old(self).seen@.insert(id)
                    &&& final(self).news@ == old(self).news@
                },
                Msg::Upsert(row) => match row.existing_id {
                    Some(id) => {
                        &&& op == WriteOp::Update(id, row)
                        &&& final(self).stats == (ScanStats {
                            updated: (old(self).stats.updated + 1) as u64,
                            ..old(self).stats
                        })
                        &&& final(self).seen@ == old(self).seen@.insert(id)
                        &&& final(self).news@ == old(self).news@
                    },
                    None => {
                        &&& op is Nothing
                        &&& final(self).stats == old(self).stats
                        &&& final(self).seen@ == old(self).seen@
                        &&& final(self).news@ == old(self).news@.push(row)
                    },
                },
            },
    {
        match msg {
            Msg::Failed => {
                self.stats.errors = self.stats.errors + 1;
                WriteOp::Nothing
            },
            Msg::Unchanged(id) => {
                self.seen.insert(id);
                self.stats.unchanged = self.stats.unchanged + 1;
                WriteOp::Nothing
            },
            Msg::Upsert(row) => match row.existing_id {
                Some(id) => {
                    self.seen.insert(id);
                    self.stats.updated = self.stats.updated + 1;
                    WriteOp::Update(id, row)
                },
                None => {
                    self.news.push(row);
                    WriteOp::Nothing
                },
            },
        }
    }

    /// Settles the new files and the gone entries. A new file with the time and size of a
    /// gone entry is that entry's file under a new name.
    pub fn settle(&mut self, existing: &Vec<FileState>) -> (p: NewsPlan)
        requires
            old(self).stats.moved + old(self).news@.len() <= u64::MAX,
            old(self).stats.added + old(self).news@.len() <= u64::MAX,
            old(self).stats.removed + existing@.len() <= u64::MAX,
        ensures
            final(self).news@ == old(self).news@,
            final(self).seen@ == old(self).seen@,
            p.moves@.len() == old(self).news@.len(),
            forall|i: int|
                0 <= i < p.moves@.len() ==> #[trigger] p.moves@[i] == moved_from(
                    gone(existing@, old(self).seen@),
                    old(self).news@,
                    i,
                ),
            p.removed@ == left_over(gone(existing@, old(self).seen@), p.moves@),
            final(self).stats == (ScanStats {
                moved: (old(self).stats.moved + count_moves(p.moves@)) as u64,
                added: (old(self).stats.added + old(self).news@.len() - count_moves(
                    p.moves@,
                )) as u64,
                removed: (old(self).stats.removed + p.removed@.len()) as u64,
                ..old(self).stats
            }),
    {
        let ghost seen = self.seen@;
        let ghost news = self.news@;
        let mut missing: Vec<FileState> = Vec::new();
        let mut sigs: HashMap<i128, Vec<i64>> = HashMap::new();
        for i in 0..existing.len()
            invariant
                self.seen@ == seen,
                self.news@ == news,
                self.stats == old(self).stats,
                missing@ == gone(existing@.take(i as int), seen),
                missing@.len() <= i,
                forall|m: i64, z: i64|
                    #![trigger sig_key(m, z)]
                    listed(sigs@, missing@, m, z),
        {
            let fs: FileState = existing[i];
            assert(existing@.take(i + 1).drop_last() =~= existing@.take(i as int));
            assert(existing@.take(i + 1).last() == fs);
            if !self.seen.contains(&fs.id) {
                let ghost m0 = missing@;
                let ghost s0 = sigs@;
                missing.push(fs);
                assert(missing@.drop_last() =~= m0);
                let k: i128 = key_of(fs.mtime_ns, fs.size);
                assert(listed(s0, m0, fs.mtime_ns, fs.size));
                let mut ids: Vec<i64> = match sigs.remove(&k) {
                    Some(v) => v,
                    None => Vec::new(),
                };
                assert(ids@ =~= with_sig(m0, fs.mtime_ns, fs.size));
                ids.push(fs.id);
                sigs.insert(k, ids);
                assert forall|m: i64, z: i64| #![trigger sig_key(m, z)] listed(
                    sigs@,
                    missing@,
                    m,
                    z,
                ) by {
                    lemma_key_range(m, z);
                    lemma_key_range(fs.mtime_ns, fs.size);
                    assert(sig_key(m, z) == sig_key(fs.mtime_ns, fs.size) <==> m == fs.mtime_ns
                        && z == fs.size);
                    assert(listed(s0, m0, m, z));
                }
            }
        }
        assert(existing@.take(existing@.len() as int) =~= existing@);
        let ghost lost = missing@;
        let mut moves: Vec<Option<i64>> = Vec::new();
        let mut moved: HashSet<i64> = HashSet::new();
        let mut taken: HashMap<i128, usize> = HashMap::new();
        let mut n_moved: u64 = 0;
        let mut n_added: u64 = 0;
        for i in 0..self.news.len()
            invariant
                self.seen@ == seen,
                self.news@ == news,
                self.stats == old(self).stats,
                news.len() <= u64::MAX,
                lost == missing@,
                moves@.len() == i,
                n_moved == count_moves(moves@),
                n_moved + n_added == i,
                forall|j: int|
                    0 <= j < i ==> #[trigger] moves@[j] == moved_from(lost, news, j),
                forall|id: i64| #[trigger] moved@.contains(id) <==> moves@.contains(Some(id)),
                forall|m: i64, z: i64|
                    #![trigger sig_key(m, z)]
                    listed(sigs@, lost, m, z) && counted(taken@, news, i as int, m, z),
        {
            let mt: i64 = self.news[i].mtime_ns;
            let sz: i64 = self.news[i].size;
            let k: i128 = key_of(mt, sz);
            let ghost t0 = taken@;
            let ghost mv0 = moves@;
            proof {
                lemma_claims_bound(news, i as int, mt, sz);
            }
            let n: usize = match taken.get(&k) {
                Some(n) => *n,
                None => 0,
            };
            let hit: Option<i64> = match sigs.get(&k) {
                Some(ids) => if n < ids.len() {
                    Some(ids[n])
                } else {
                    None
                },
                None => None,
            };
            taken.insert(k, n + 1);
            assert(hit == moved_from(lost, news, i as int));
            if let Some(id) = hit {
                moved.insert(id);
                n_moved = n_moved + 1;
            } else {
                n_added = n_added + 1;
            }
            moves.push(hit);
            assert(moves@.drop_last() =~= mv0);
            assert forall|id: i64| #[trigger] moved@.contains(id) <==> moves@.contains(
                Some(id),
            ) by {
                if mv0.contains(Some(id)) {
                    let j = choose|j: int| 0 <= j < mv0.len() && mv0[j] == Some(id);
                    assert(moves@[j] == Some(id));
                }
                if hit == Some(id) {
                    assert(moves@[i as int] == Some(id));
                }
                if moves@.contains(Some(id)) {
                    let j = choose|j: int| 0 <= j < moves@.len() && moves@[j] == Some(id);
                    if j < i {
                        assert(mv0[j] == Some(id));
                    }
                }
            }
            assert forall|m: i64, z: i64| #![trigger sig_key(m, z)] listed(sigs@, lost, m, z)
                && counted(taken@, news, i + 1, m, z) by {
                lemma_key_range(m, z);
                lemma_key_range(mt, sz);
                assert(sig_key(m, z) == sig_key(mt, sz) <==> m == mt && z == sz);
                assert(counted(t0, news, i as int, m, z));
            }
        }
        let mut removed: Vec<i64> = Vec::new();
        for i in 0..missing.len()
            invariant
                self.seen@ == seen,
                self.news@ == news,
                self.stats == old(self).stats,
                lost == missing@,
                forall|id: i64| #[trigger] moved@.contains(id) <==> moves@.contains(Some(id)),
                removed@ == left_over(lost.take(i as int), moves@),
                removed@.len() <= i,
        {
            assert(lost.take(i + 1).drop_last() =~= lost.take(i as int));
            assert(lost.take(i + 1).last() == lost[i as int]);
            let id: i64 = missing[i].id;
            if !moved.contains(&id) {
                removed.push(id);
            }
        }
        assert(lost.take(lost.len() as int) =~= lost);
        self.stats.moved = self.stats.moved + n_moved;
        self.stats.added = self.stats.added + n_added;
        self.stats.removed = self.stats.removed + removed.len() as u64;
        NewsPlan { moves, removed }
    }
}

proof fn lemma_gone(existing: Seq<FileState>, seen: Set<i64>, id: i64)
    ensures
        (exists|i: int| 0 <= i < gone(existing, seen).len() && (#[trigger] gone(existing, seen)[i]).id
            == id) <==> !seen.contains(id) && (exists|i: int|
            0 <= i < existing.len() && (#[trigger] existing[i]).id == id),
    decreases existing.len(),
{
    if existing.len() > 0 {
        let e = existing.drop_last();
        lemma_gone(e, seen, id);
        let g0 = gone(e, seen);
        let g = gone(existing, seen);
        let x = existing.last();
        if exists|i: int| 0 <= i < g.len() && (#[trigger] g[i]).id == id {
            let i = choose|i: int| 0 <= i < g.len() && (#[trigger] g[i]).id == id;
            if i < g0.len() {
                assert(g0[i].id == id);
                let j = choose|j: int| 0 <= j < e.len() && (#[trigger] e[j]).id == id;
                assert(existing[j].id == id);
            } else {
                assert(existing[existing.len() - 1].id == id);
            }
        }
        if !seen.contains(id) && exists|i: int|
            0 <= i < existing.len() && (#[trigger] existing[i]).id == id {
            let i = choose|i: int| 0 <= i < existing.len() && (#[trigger] existing[i]).id == id;
            if i < e.len() {
                assert(e[i].id == id);
                let j = choose|j: int| 0 <= j < g0.len() && (#[trigger] g0[j]).id == id;
                assert(g[j].id == id);
            } else {
                assert(g[g.len() - 1].id == id);
            }
        }
    }
}

proof fn lemma_left_over(g: Seq<FileState>, moves: Seq<Option<i64>>, id: i64)
    ensures
        left_over(g, moves).contains(id) <==> !moves.contains(Some(id)) && (exists|i: int|
            0 <= i < g.len() && (#[trigger] g[i]).id == id),
    decreases g.len(),
{
    if g.len() > 0 {
        let h = g.drop_last();
        lemma_left_over(h, moves, id);
        let l0 = left_over(h, moves);
        let l = left_over(g, moves);
        if l.contains(id) {
            let k = choose|k: int| 0 <= k < l.len() && l[k] == id;
            if k < l0.len() {
                assert(l0[k] == id);
                assert(l0.contains(id));
                let i = choose|i: int| 0 <= i < h.len() && (#[trigger] h[i]).id == id;
                assert(g[i].id == id);
            } else {
                assert(g[g.len() - 1].id == id);
            }
        }
        if !moves.contains(Some(id)) && exists|i: int| 0 <= i < g.len() && (#[trigger] g[i]).id
            == id {
            let i = choose|i: int| 0 <= i < g.len() && (#[trigger] g[i]).id == id;
            if i < h.len() {
                assert(h[i].id == id);
                assert(l0.contains(id));
                let k = choose|k: int| 0 <= k < l0.len() && l0[k] == id;
                assert(l[k] == id);
            } else {
                assert(l[l.len() - 1] == id);
            }
        }
    }
}

proof fn lemma_claims_bound(news: Seq<Row>, n: int, m: i64, z: i64)
    ensures
        n >= 0 ==> claims(news, n, m, z) <= n,
    decreases n,
{
    if n > 0 {
        lemma_claims_bound(news, n - 1, m, z);
    }
}

proof fn lemma_claims_grow(news: Seq<Row>, i: int, n: int, m: i64, z: i64)
    requires
        0 <= i <= n,
    ensures
        claims(news, i, m, z) <= claims(news, n, m, z),
        i < n && news[i].mtime_ns == m && news[i].size == z ==> claims(news, i, m, z) < claims(
            news,
            n,
            m,
            z,
        ),
    decreases n - i,
{
    if i < n {
        lemma_claims_grow(news, i, n - 1, m, z);
        if i == n - 1 {
            assert(claims(news, n - 1, m, z) == claims(news, i, m, z));
        }
    }
}

/// The new file that makes a given claim.
proof fn lemma_claimant(news: Seq<Row>, n: int, m: i64, z: i64, c: nat)
    requires
        0 <= n,
        c < claims(news, n, m, z),
    ensures
        exists|i: int|
            0 <= i < n && (#[trigger] news[i]).mtime_ns == m && news[i].size == z && claims(
                news,
                i,
                m,
                z,
            ) == c,
    decreases n,
{
    if c < claims(news, n - 1, m, z) {
        lemma_claimant(news, n - 1, m, z, c);
        let i = choose|i: int|
            0 <= i < n - 1 && (#[trigger] news[i]).mtime_ns == m && news[i].size == z && claims(
                news,
                i,
                m,
                z,
            ) == c;
        assert(news[i].mtime_ns == m);
    } else {
        assert(news[n - 1].mtime_ns == m);
    }
}

/// Each id of the list is that of an entry with the time and size, in the entries' order.
proof fn lemma_with_sig(s: Seq<FileState>, m: i64, z: i64, c: int) -> (k: int)
    requires
        0 <= c < with_sig(s, m, z).len(),
    ensures
        0 <= k < s.len(),
        s[k].mtime_ns == m,
        s[k].size == z,
        s[k].id == with_sig(s, m, z)[c],
        with_sig(s.take(k), m, z).len() == c,
    decreases s.len(),
{
    let t = s.drop_last();
    if c < with_sig(t, m, z).len() {
        let k = lemma_with_sig(t, m, z, c);
        assert(t.take(k) =~= s.take(k));
        k
    } else {
        assert(s.take(s.len() - 1) =~= t);
        s.len() - 1
    }
}

/// An entry with the time and size stands in the list.
proof fn lemma_in_sig(s: Seq<FileState>, m: i64, z: i64, k: int)
    requires
        0 <= k < s.len(),
        s[k].mtime_ns == m,
        s[k].size == z,
    ensures
        ({
            let c = with_sig(s.take(k), m, z).len() as int;
            c < with_sig(s, m, z).len() && with_sig(s, m, z)[c] == s[k].id
        }),
    decreases s.len(),
{
    let t = s.drop_last();
    if k < t.len() {
        lemma_in_sig(t, m, z, k);
        assert(t.take(k) =~= s.take(k));
    } else {
        assert(s.take(k) =~= t);
    }
}

/// The entries that are gone are as distinct as all of them.
proof fn lemma_gone_distinct(existing: Seq<FileState>, seen: Set<i64>)
    requires
        distinct_ids(existing),
    ensures
        distinct_ids(gone(existing, seen)),
    decreases existing.len(),
{
    if existing.len() > 0 {
        let e = existing.drop_last();
        let x = existing.last();
        let g = gone(existing, seen);
        assert forall|i: int, j: int| 0 <= i < j < e.len() implies (#[trigger] e[i]).id != (
        #[trigger] e[j]).id by {
            assert(e[i] == existing[i] && e[j] == existing[j]);
        }
        lemma_gone_distinct(e, seen);
        assert forall|i: int, j: int| 0 <= i < j < g.len() implies (#[trigger] g[i]).id != (
        #[trigger] g[j]).id by {
            let g0 = gone(e, seen);
            if j < g0.len() {
                assert(g0[i].id != g0[j].id);
            } else if g[i].id == x.id {
                assert(g0[i].id == x.id);
                lemma_gone(e, seen, x.id);
                let q = choose|q: int| 0 <= q < e.len() && (#[trigger] e[q]).id == x.id;
                assert(existing[q].id != existing[existing.len() - 1].id);
            }
        }
    }
}

/// Every entry of the library ends up in exactly one way: its file was seen and it stays,
/// or a new file moved from it and it stays, or it is deleted.
pub proof fn law_every_entry_is_settled(
    existing: Seq<FileState>,
    seen: Set<i64>,
    moves: Seq<Option<i64>>,
    id: i64,
)
    requires
        exists|i: int| 0 <= i < existing.len() && (#[trigger] existing[i]).id == id,
    ensures
        left_over(gone(existing, seen), moves).contains(id) <==> !seen.contains(id)
            && !moves.contains(Some(id)),
{
    lemma_gone(existing, seen, id);
    lemma_left_over(gone(existing, seen), moves, id);
}

/// No two entries have the same id.
pub open spec fn distinct_ids(s: Seq<FileState>) -> bool {
    forall|i: int, j: int| 0 <= i < j < s.len() ==> (#[trigger] s[i]).id != (#[trigger] s[j]).id
}

/// A new file only ever moves from an entry whose file is gone and whose time and size are
/// its own, and no two new files move from the same entry.
pub proof fn law_moves_are_sound(
    existing: Seq<FileState>,
    seen: Set<i64>,
    news: Seq<Row>,
    i: int,
    j: int,
)
    requires
        0 <= i < news.len(),
        0 <= j < news.len(),
        i != j,
        distinct_ids(existing),
    ensures
        moved_from(gone(existing, seen), news, i) matches Some(id) ==> !seen.contains(id)
            && exists|k: int|
            0 <= k < gone(existing, seen).len() && (#[trigger] gone(existing, seen)[k]).id == id
                && gone(existing, seen)[k].mtime_ns == news[i].mtime_ns && gone(
                existing,
                seen,
            )[k].size == news[i].size,
        moved_from(gone(existing, seen), news, i) is Some ==> moved_from(
            gone(existing, seen),
            news,
            i,
        ) != moved_from(gone(existing, seen), news, j),
{
    let g = gone(existing, seen);
    lemma_gone_distinct(existing, seen);
    if let Some(id) = moved_from(g, news, i) {
        let (m, z) = (news[i].mtime_ns, news[i].size);
        let k = lemma_with_sig(g, m, z, claims(news, i, m, z) as int);
        assert(g[k].id == id);
        lemma_gone(existing, seen, id);
        if moved_from(g, news, j) == Some(id) {
            let (m2, z2) = (news[j].mtime_ns, news[j].size);
            let k2 = lemma_with_sig(g, m2, z2, claims(news, j, m2, z2) as int);
            assert(g[k2].id == id);
            assert(k == k2);
            if i < j {
                lemma_claims_grow(news, i, j, m, z);
            } else {
                lemma_claims_grow(news, j, i, m, z);
            }
        }
    }
}

/// Renamed files are recognised: a new file is a move exactly if there are more gone entries
/// with its time and size than earlier new files with them. So all are moves where there are
/// no more of them than such entries.
pub proof fn law_renamed_file_is_a_move(gone: Seq<FileState>, news: Seq<Row>, i: int)
    requires
        0 <= i < news.len(),
    ensures
        ({
            let (m, z) = (news[i].mtime_ns, news[i].size);
            let fit = with_sig(gone, m, z);
            &&& moved_from(gone, news, i) is Some <==> claims(news, i, m, z) < fit.len()
            &&& claims(news, news.len() as int, m, z) <= fit.len() ==> moved_from(gone, news, i)
                is Some
        }),
{
    lemma_claims_grow(news, i, news.len() as int, news[i].mtime_ns, news[i].size);
}

/// No entry is given up while a new file could be its own: where there are at least as many
/// new files with its time and size as gone entries with them, one moved from it.
pub proof fn law_gone_entry_is_found_again(gone: Seq<FileState>, news: Seq<Row>, k: int)
    requires
        0 <= k < gone.len(),
        with_sig(gone, gone[k].mtime_ns, gone[k].size).len() <= claims(
            news,
            news.len() as int,
            gone[k].mtime_ns,
            gone[k].size,
        ),
    ensures
        exists|i: int|
            0 <= i < news.len() && #[trigger] moved_from(gone, news, i) == Some(gone[k].id),
{
    let (m, z) = (gone[k].mtime_ns, gone[k].size);
    let c = with_sig(gone.take(k), m, z).len();
    lemma_in_sig(gone, m, z, k);
    lemma_claimant(news, news.len() as int, m, z, c);
    let i = choose|i: int|
        0 <= i < news.len() && (#[trigger] news[i]).mtime_ns == m && news[i].size == z && claims(
            news,
            i,
            m,
            z,
        ) == c;
    assert(moved_from(gone, news, i) == Some(gone[k].id));
}

/// Scanning a second time changes nothing: if every entry's file was seen and no file is
/// new, there is nothing to move, to add or to delete.
pub proof fn law_second_scan_is_idle(existing: Seq<FileState>, seen: Set<i64>)
    requires
        forall|i: int| 0 <= i < existing.len() ==> seen.contains((#[trigger] existing[i]).id),
    ensures
        gone(existing, seen) == Seq::<FileState>::empty(),
        left_over(gone(existing, seen), Seq::empty()) == Seq::<i64>::empty(),
    decreases existing.len(),
{
    if existing.len() > 0 {
        assert(seen.contains(existing[existing.len() - 1].id));
        let e = existing.drop_last();
        assert forall|i: int| 0 <= i < e.len() implies seen.contains((#[trigger] e[i]).id) by {
            assert(e[i] == existing[i]);
        }
        law_second_scan_is_idle(e, seen);
    }
}

/// The place of the last `#`, or -1.
pub open spec fn last_hash(s: Seq<char>) -> int
    decreases s.len(),
{
    if s.len() == 0 {
        -1
    } else if s.last() == '#' {
        s.len() - 1
    } else {
        last_hash(s.drop_last())
    }
}

/// The file of a track that is known as `<file>#<number>`.
pub open spec fn file_of_track(path: Seq<char>) -> Option<Seq<char>> {
    let k = last_hash(path);
    if k >= 0 && k + 1 < path.len() && all_digits(path.skip(k + 1)) {
        Some(path.take(k))
    } else {
        None
    }
}

/// Where the last `#` stands, if digits and nothing else follow it.
fn hash_place(p: &[char]) -> (r: Option<usize>)
    ensures
        match r {
            Some(k) => k == last_hash(p@) && k + 1 < p@.len() && all_digits(p@.skip(k + 1)),
            None => file_of_track(p@) is None,
        },
{
    let mut k: usize = p.len();
    assert(p@.take(k as int) =~= p@);
    while k > 0 && p[k - 1] != '#'
        invariant
            k <= p@.len(),
            last_hash(p@) == last_hash(p@.take(k as int)),
        decreases k,
    {
        assert(p@.take(k as int).last() == p@[k - 1]);
        assert(p@.take(k as int).drop_last() =~= p@.take(k - 1));
        k = k - 1;
    }
    if k == 0 {
        return None;
    }
    assert(p@.take(k as int).last() == p@[k - 1]);
    assert(last_hash(p@) == k - 1);
    if k == p.len() {
        return None;
    }
    let mut i: usize = k;
    while i < p.len()
        invariant
            k <= i <= p@.len(),
            k > 0,
            last_hash(p@) == k - 1,
            forall|j: int| k <= j < i ==> is_digit(#[trigger] p@[j]),
        decreases p@.len() - i,
    {
        if !('0' <= p[i] && p[i] <= '9') {
            assert(p@.skip(k as int)[i - k] == p@[i as int]);
            assert(!all_digits(p@.skip(k as int)));
            return None;
        }
        i = i + 1;
    }
    assert(all_digits(p@.skip(k as int)));
    Some(k - 1)
}

/// The file of a track inside another file.
pub fn strip_cue_suffix(path: &str) -> (r: Option<String>)
    ensures
        opt_text(r) == file_of_track(path@),
{
    let p = chars_of(path);
    match hash_place(p.as_slice()) {
        None => None,
        Some(k) => {
            let head = vstd::slice::slice_subrange(p.as_slice(), 0, k);
            assert(head@ =~= p@.take(k as int));
            Some(string_of(head))
        },
    }
}

/// The track of a disc image that a library track stands for, counted from zero: the number
/// in its path, where that is `<source>#<number>` and it has no start within the source.
pub open spec fn disc_track(t: Track) -> Option<nat> {
    match (t.start_ms, t.source_path) {
        (None, Some(src)) => match file_of_track(t.path@) {
            Some(f) => {
                let n = digits_value(t.path@.skip(f.len() as int + 1));
                if f == src@ && n >= 1 && n <= u32::MAX {
                    Some((n - 1) as nat)
                } else {
                    None
                }
            },
            None => None,
        },
        _ => None,
    }
}

impl Track {
    pub fn sacd_track(&self) -> (r: Option<usize>)
        ensures
            match r {
                Some(n) => disc_track(*self) == Some(n as nat),
                None => disc_track(*self) is None,
            },
    {
        if self.start_ms.is_some() {
            return None;
        }
        let src = match &self.source_path {
            Some(s) => s,
            None => return None,
        };
        let p = chars_of(self.path.as_str());
        match hash_place(p.as_slice()) {
            None => None,
            Some(k) => {
                let head = vstd::slice::slice_subrange(p.as_slice(), 0, k);
                assert(head@ =~= p@.take(k as int));
                let want = chars_of(src.as_str());
                if !chars_eq(head, want.as_slice()) {
                    return None;
                }
                let end: usize = p.len();
                let num = vstd::slice::slice_subrange(p.as_slice(), k + 1, end);
                assert(num@ =~= p@.skip(k + 1));
                assert(is_digit(num@[0]));
                assert(crate::text::unsigned_part(num@) == num@);
                match parse_numeral(num, u32::MAX as u64) {
                    Some(n) => if n >= 1 {
                        Some((n - 1) as usize)
                    } else {
                        None
                    },
                    None => None,
                }
            },
        }
    }
}

/// A text with the characters that a pattern would read otherwise marked by backslashes.
pub open spec fn escaped(s: Seq<char>) -> Seq<char>
    decreases s.len(),
{
    if s.len() == 0 {
        Seq::empty()
    } else {
        let c = s.last();
        let rest = escaped(s.drop_last());
        if c == '\\' || c == '%' || c == '_' {
            rest.push('\\').push(c)
        } else {
            rest.push(c)
        }
    }
}

/// Marks what a pattern would read otherwise.
pub fn escape_like(s: &str) -> (r: String)
    ensures
        r@ == escaped(s@),
{
    let v = chars_of(s);
    let mut r = String::new();
    for i in 0..v.len()
        invariant
            r@ == escaped(v@.take(i as int)),
    {
        let c: char = v[i];
        assert(v@.take(i + 1).drop_last() =~= v@.take(i as int));
        assert(v@.take(i + 1).last() == c);
        if c == '\\' || c == '%' || c == '_' {
            r.push('\\');
        }
        r.push(c);
    }
    assert(v@.take(v@.len() as int) =~= v@);
    r
}

/// The pattern that finds the tracks inside a file.
pub fn tracks_pattern(key: &str) -> (r: String)
    ensures
        r@ == escaped(key@) + "#%"@,
{
    let mut r = escape_like(key);
    r.append("#%");
    r
}

/// The text that a pattern without wildcards stands for, where a backslash takes the
/// character behind it as it is; none if it has a wildcard, or ends in a backslash.
pub open spec fn literal(p: Seq<char>) -> Option<Seq<char>>
    decreases p.len(),
{
    if p.len() == 0 {
        Some(Seq::empty())
    } else if p[0] == '\\' {
        if p.len() == 1 {
            None
        } else {
            match literal(p.skip(2)) {
                Some(t) => Some(seq![p[1]] + t),
                None => None,
            }
        }
    } else if p[0] == '%' || p[0] == '_' {
        None
    } else {
        match literal(p.skip(1)) {
            Some(t) => Some(seq![p[0]] + t),
            None => None,
        }
    }
}

/// An escaped text matches itself and nothing else: as a pattern it has no wildcard, and it
/// stands for the text.
pub proof fn law_escaped_text_is_literal(s: Seq<char>)
    ensures
        literal(escaped(s)) == Some(s),
    decreases s.len(),
{
    lemma_literal_append(s, Seq::empty());
    assert(escaped(s) + Seq::<char>::empty() =~= escaped(s));
    assert(s + Seq::<char>::empty() =~= s);
}

proof fn lemma_literal_append(s: Seq<char>, p: Seq<char>)
    requires
        literal(p) is Some,
    ensures
        literal(escaped(s) + p) == Some(s + literal(p)->0),
    decreases s.len(),
{
    if s.len() == 0 {
        assert(escaped(s) + p =~= p);
        assert(s + literal(p)->0 =~= literal(p)->0);
    } else {
        let c = s.last();
        let special = c == '\\' || c == '%' || c == '_';
        let q = if special {
            seq!['\\', c] + p
        } else {
            seq![c] + p
        };
        if special {
            assert(q.skip(2) =~= p);
            assert(q[1] == c);
        } else {
            assert(q.skip(1) =~= p);
        }
        assert(literal(q) == Some(seq![c] + literal(p)->0));
        lemma_literal_append(s.drop_last(), q);
        assert(escaped(s) + p =~= escaped(s.drop_last()) + q);
        assert(s.drop_last() + (seq![c] + literal(p)->0) =~= s + literal(p)->0);
    }
}

/// The path of track `n` inside a file.
pub open spec fn track_path(key: Seq<char>, n: nat) -> Seq<char> {
    key + "#"@ + padded(n, 3)
}

fn make_track_path(key: &str, n: u64) -> (s: String)
    ensures
        s@ == track_path(key@, n as nat),
{
    let mut s = String::from_str(key);
    s.append("#");
    push_padded(&mut s, n, 3);
    s
}

proof fn lemma_last_hash(s: Seq<char>, k: int)
    requires
        0 <= k < s.len(),
        s[k] == '#',
        forall|i: int| k < i < s.len() ==> s[i] != '#',
    ensures
        last_hash(s) == k,
    decreases s.len(),
{
    if k < s.len() - 1 {
        assert(s.last() == s[s.len() - 1]);
        lemma_last_hash(s.drop_last(), k);
    }
}

/// The path of a track leads back to its file, whatever the file is called.
pub proof fn law_track_path_names_its_file(key: Seq<char>, n: nat)
    ensures
        file_of_track(track_path(key, n)) == Some(key),
{
    reveal_strlit("#");
    let p = track_path(key, n);
    let d = padded(n, 3);
    lemma_padded_value(n, 3);
    assert(p.len() == key.len() + 1 + d.len());
    assert(p[key.len() as int] == '#');
    assert forall|i: int| key.len() < i < p.len() implies p[i] != '#' by {
        assert(p[i] == d[i - key.len() - 1]);
        assert(is_digit(d[i - key.len() - 1]));
    }
    lemma_last_hash(p, key.len() as int);
    assert(p.skip(key.len() as int + 1) =~= d);
    assert(p.take(key.len() as int) =~= key);
}

/// A disc image plays the track that was asked for: what the library stores of track `i`
/// leads back to track `i` of that image.
pub proof fn law_disc_track_comes_back(t: Track, key: Seq<char>, i: nat)
    requires
        i < u32::MAX,
        t.path@ == track_path(key, i + 1),
        t.source_path matches Some(s) && s@ == key,
        t.start_ms is None,
    ensures
        disc_track(t) == Some(i),
{
    law_track_path_names_its_file(key, i + 1);
    lemma_padded_value(i + 1, 3);
    reveal_strlit("#");
    assert(t.path@.skip(key.len() as int + 1) =~= padded(i + 1, 3));
}

/// An audio file that a sheet refers to.
pub struct AudioInfo {
    pub source: String,
    pub duration_ms: Option<u64>,
    pub codec: Option<String>,
    pub sample_rate: Option<u32>,
    pub bits: Option<u32>,
    pub channels: Option<u32>,
    pub art_hash: Option<String>,
}

/// A track inside another file, as a row of the library.
pub struct VirtualRow {
    pub path: String,
    pub folder: String,
    pub title: String,
    pub artist: Option<String>,
    pub album_artist: Option<String>,
    pub album: Option<String>,
    pub genre: Option<String>,
    pub track_no: u32,
    pub year: Option<i32>,
    pub duration_ms: u64,
    pub codec: Option<String>,
    pub sample_rate: Option<u32>,
    pub bits: Option<u32>,
    pub channels: Option<u32>,
    pub art_hash: Option<String>,
    pub source_path: String,
    /// Where the track starts in a sheet's file; none for a disc image.
    pub start_ms: Option<u64>,
    pub mtime_ns: i64,
    pub size: i64,
}

/// The tracks of the first `f` files that could be read.
pub open spec fn tracks_before(sheet: CueSheet, infos: Seq<Option<AudioInfo>>, f: int) -> nat
    decreases f,
{
    if f <= 0 {
        0
    } else {
        tracks_before(sheet, infos, f - 1) + if infos[f - 1] is Some {
            sheet.files@[f - 1].tracks@.len()
        } else {
            0
        }
    }
}

/// Where track `i` of a file ends: where the next one starts, or with the file.
pub open spec fn track_end(sheet: CueSheet, f: int, i: int, info: AudioInfo) -> nat {
    let ts = sheet.files@[f].tracks@;
    if i + 1 < ts.len() {
        ts[i + 1].start_ms as nat
    } else {
        match info.duration_ms {
            Some(d) => d as nat,
            None => 0,
        }
    }
}

/// The row is that of track `i` of file `f`, the `n`-th of the sheet.
pub open spec fn is_cue_row(
    r: VirtualRow,
    key: Seq<char>,
    folder: Seq<char>,
    sheet: CueSheet,
    f: int,
    i: int,
    n: nat,
    info: AudioInfo,
    sig: (i64, i64),
) -> bool {
    let t = sheet.files@[f].tracks@[i];
    let end = track_end(sheet, f, i, info);
    &&& r.path@ == track_path(key, n)
    &&& r.folder@ == folder
    &&& r.title@ == (match t.title {
        Some(s) => s@,
        None => "Track "@ + padded(t.number as nat, 2),
    })
    &&& r.artist == (match t.performer {
        Some(p) => Some(p),
        None => sheet.performer,
    })
    &&& r.album_artist == sheet.performer
    &&& r.album == sheet.title
    &&& r.genre == sheet.genre
    &&& r.track_no == t.number
    &&& r.year == sheet.date
    &&& r.duration_ms == (if end >= t.start_ms {
        end - t.start_ms
    } else {
        0
    })
    &&& r.codec == info.codec
    &&& r.sample_rate == info.sample_rate
    &&& r.bits == info.bits
    &&& r.channels == info.channels
    &&& r.art_hash == info.art_hash
    &&& r.source_path == info.source
    &&& r.start_ms == Some(t.start_ms)
    &&& r.mtime_ns == sig.0
    &&& r.size == sig.1
}

fn numbered_title(n: u64) -> (s: String)
    ensures
        s@ == "Track "@ + padded(n as nat, 2),
{
    let mut s = String::from_str("Track ");
    push_padded(&mut s, n, 2);
    s
}

/// The rows of a sheet: every track of every file that could be read, numbered through. A
/// track lasts until the next one starts, the last one until its file ends.
pub fn insert_cue_tracks(
    key: &str,
    folder: &str,
    sheet: &CueSheet,
    infos: &Vec<Option<AudioInfo>>,
    sig: (i64, i64),
) -> (rows: Vec<VirtualRow>)
    requires
        infos@.len() == sheet.files@.len(),
        tracks_before(*sheet, infos@, infos@.len() as int) < u64::MAX,
    ensures
        rows@.len() == tracks_before(*sheet, infos@, infos@.len() as int),
        forall|f: int, i: int|
            #![trigger sheet.files@[f].tracks@[i]]
            0 <= f < infos@.len() && infos@[f] is Some && 0 <= i < sheet.files@[f].tracks@.len()
                ==> is_cue_row(
                rows@[tracks_before(*sheet, infos@, f) + i],
                key@,
                folder@,
                *sheet,
                f,
                i,
                tracks_before(*sheet, infos@, f) + i as nat + 1,
                infos@[f]->0,
                sig,
            ),
{
    let mut rows: Vec<VirtualRow> = Vec::new();
    let total: usize = infos.len();
    for f in 0..total
        invariant
            total == infos@.len(),
            infos@.len() == sheet.files@.len(),
            tracks_before(*sheet, infos@, infos@.len() as int) < u64::MAX,
            rows@.len() == tracks_before(*sheet, infos@, f as int),
            forall|g: int, i: int|
                #![trigger sheet.files@[g].tracks@[i]]
                0 <= g < f && infos@[g] is Some && 0 <= i < sheet.files@[g].tracks@.len()
                    ==> is_cue_row(
                    rows@[tracks_before(*sheet, infos@, g) + i],
                    key@,
                    folder@,
                    *sheet,
                    g,
                    i,
                    tracks_before(*sheet, infos@, g) + i as nat + 1,
                    infos@[g]->0,
                    sig,
                ),
    {
        let ghost before = rows@;
        if let Some(info) = &infos[f] {
            let file = &sheet.files[f];
            let n: usize = file.tracks.len();
            let base: usize = rows.len();
            proof {
                lemma_before_grows(*sheet, infos@, f + 1, infos@.len() as int);
            }
            for i in 0..n
                invariant
                    f < total,
                    total == infos@.len(),
                    infos@.len() == sheet.files@.len(),
                    infos@[f as int] == Some(*info),
                    *file == sheet.files@[f as int],
                    n == file.tracks@.len(),
                    base == tracks_before(*sheet, infos@, f as int),
                    base + n < u64::MAX,
                    rows@.len() == base + i,
                    rows@.take(base as int) == before,
                    forall|j: int|
                        #![trigger sheet.files@[f as int].tracks@[j]]
                        0 <= j < i ==> is_cue_row(
                            rows@[base + j],
                            key@,
                            folder@,
                            *sheet,
                            f as int,
                            j,
                            (base + j + 1) as nat,
                            *info,
                            sig,
                        ),
            {
                let t = &file.tracks[i];
                let end: u64 = if i + 1 < n {
                    file.tracks[i + 1].start_ms
                } else {
                    match info.duration_ms {
                        Some(d) => d,
                        None => 0,
                    }
                };
                let title = match &t.title {
                    Some(s) => s.clone(),
                    None => numbered_title(t.number as u64),
                };
                let artist = match &t.performer {
                    Some(p) => Some(p.clone()),
                    None => clone_opt(&sheet.performer),
                };
                let seq: u64 = base as u64 + i as u64 + 1;
                let row = VirtualRow {
                    path: make_track_path(key, seq),
                    folder: String::from_str(folder),
                    title,
                    artist,
                    album_artist: clone_opt(&sheet.performer),
                    album: clone_opt(&sheet.title),
                    genre: clone_opt(&sheet.genre),
                    track_no: t.number,
                    year: sheet.date,
                    duration_ms: end.saturating_sub(t.start_ms),
                    codec: clone_opt(&info.codec),
                    sample_rate: info.sample_rate,
                    bits: info.bits,
                    channels: info.channels,
                    art_hash: clone_opt(&info.art_hash),
                    source_path: info.source.clone(),
                    start_ms: Some(t.start_ms),
                    mtime_ns: sig.0,
                    size: sig.1,
                };
                let ghost r0 = rows@;
                rows.push(row);
                assert(rows@.take(base as int) =~= before);
                assert forall|j: int|
                    #![trigger sheet.files@[f as int].tracks@[j]]
                    0 <= j < i + 1 implies is_cue_row(
                    rows@[base + j],
                    key@,
                    folder@,
                    *sheet,
                    f as int,
                    j,
                    (base + j + 1) as nat,
                    *info,
                    sig,
                ) by {
                    if j < i {
                        assert(rows@[base + j] == r0[base + j]);
                    }
                }
            }
        }
        assert forall|g: int, i: int|
            #![trigger sheet.files@[g].tracks@[i]]
            0 <= g < f + 1 && infos@[g] is Some && 0 <= i
                < sheet.files@[g].tracks@.len() implies is_cue_row(
            rows@[tracks_before(*sheet, infos@, g) + i],
            key@,
            folder@,
            *sheet,
            g,
            i,
            tracks_before(*sheet, infos@, g) + i as nat + 1,
            infos@[g]->0,
            sig,
        ) by {
            if g < f {
                lemma_before_grows(*sheet, infos@, g + 1, f as int);
                let at = tracks_before(*sheet, infos@, g) + i;
                assert(at < before.len());
                assert(rows@[at] == before[at]) by {
                    if infos@[f as int] is Some {
                        assert(rows@.take(before.len() as int)[at] == before[at]);
                    }
                }
            }
        }
    }
    rows
}

proof fn lemma_before_grows(sheet: CueSheet, infos: Seq<Option<AudioInfo>>, f: int, g: int)
    requires
        0 <= f <= g,
    ensures
        tracks_before(sheet, infos, f) <= tracks_before(sheet, infos, g),
    decreases g,
{
    if f < g {
        lemma_before_grows(sheet, infos, f, g - 1);
    }
}

/// The tracks of a file leave no gap: where a track starts no later than the next, its row
/// lasts exactly until the next row starts.
pub proof fn law_tracks_are_seamless(
    a: VirtualRow,
    b: VirtualRow,
    key: Seq<char>,
    folder: Seq<char>,
    sheet: CueSheet,
    f: int,
    i: int,
    n: nat,
    info: AudioInfo,
    sig: (i64, i64),
)
    requires
        0 <= f < sheet.files@.len(),
        0 <= i,
        i + 1 < sheet.files@[f].tracks@.len(),
        is_cue_row(a, key, folder, sheet, f, i, n, info, sig),
        is_cue_row(b, key, folder, sheet, f, i + 1, n + 1, info, sig),
        sheet.files@[f].tracks@[i].start_ms <= sheet.files@[f].tracks@[i + 1].start_ms,
    ensures
        a.start_ms is Some && b.start_ms is Some,
        a.start_ms->0 + a.duration_ms == b.start_ms->0,
        a.source_path == b.source_path,
{
}

/// The row of track `i` of a disc image.
pub open spec fn is_iso_row(
    r: VirtualRow,
    key: Seq<char>,
    folder: Seq<char>,
    album: SacdAlbum,
    i: int,
    art: Option<String>,
    sig: (i64, i64),
) -> bool {
    let t = album.tracks@[i];
    &&& r.path@ == track_path(key, (i + 1) as nat)
    &&& r.folder@ == folder
    &&& r.title@ == (match t.title {
        Some(s) => s@,
        None => "Track "@ + padded((i + 1) as nat, 2),
    })
    &&& r.artist == (match t.artist {
        Some(a) => Some(a),
        None => album.album_artist,
    })
    &&& r.album_artist == album.album_artist
    &&& r.album == album.album
    &&& r.genre is None
    &&& r.track_no == i + 1
    &&& r.year is None
    &&& r.duration_ms == t.duration_ms
    &&& opt_text(r.codec) == Some("DSD64"@)
    &&& r.sample_rate is None
    &&& r.bits is None
    &&& r.channels == Some(album.channels)
    &&& r.art_hash == art
    &&& r.source_path@ == key
    &&& r.start_ms is None
    &&& r.mtime_ns == sig.0
    &&& r.size == sig.1
}

/// The rows of a disc image, one per track.
pub fn insert_iso_tracks(
    key: &str,
    folder: &str,
    album: &SacdAlbum,
    art_hash: &Option<String>,
    sig: (i64, i64),
) -> (rows: Vec<VirtualRow>)
    requires
        album.tracks@.len() < u32::MAX,
    ensures
        rows@.len() == album.tracks@.len(),
        forall|i: int|
            0 <= i < rows@.len() ==> is_iso_row(
                #[trigger] rows@[i],
                key@,
                folder@,
                *album,
                i,
                *art_hash,
                sig,
            ),
{
    let mut rows: Vec<VirtualRow> = Vec::new();
    for i in 0..album.tracks.len()
        invariant
            album.tracks@.len() < u32::MAX,
            rows@.len() == i,
            forall|j: int|
                0 <= j < i ==> is_iso_row(
                    #[trigger] rows@[j],
                    key@,
                    folder@,
                    *album,
                    j,
                    *art_hash,
                    sig,
                ),
    {
        let t = &album.tracks[i];
        let seq: u32 = (i + 1) as u32;
        let title = match &t.title {
            Some(s) => s.clone(),
            None => numbered_title(seq as u64),
        };
        let artist = match &t.artist {
            Some(a) => Some(a.clone()),
            None => clone_opt(&album.album_artist),
        };
        rows.push(
            VirtualRow {
                path: make_track_path(key, seq as u64),
                folder: String::from_str(folder),
                title,
                artist,
                album_artist: clone_opt(&album.album_artist),
                album: clone_opt(&album.album),
                genre: None,
                track_no: seq,
                year: None,
                duration_ms: t.duration_ms,
                codec: Some(String::from_str("DSD64")),
                sample_rate: None,
                bits: None,
                channels: Some(album.channels),
                art_hash: clone_opt(art_hash),
                source_path: String::from_str(key),
                start_ms: None,
                mtime_ns: sig.0,
                size: sig.1,
            },
        );
    }
    rows
}

/// A path has an extension, in any case, exactly if its own is that one; a file is sorted by its
/// extension, audio first.
pub proof fn law_entries_are_sorted_by_extension(
    path: &str,
    ext: &str,
    b: bool,
    own: Option<Vec<char>>,
    c: Candidate,
    audio: bool,
)
    requires
        call_ensures(has_ext, (path, ext), b),
        call_ensures(extension_of, (path,), own),
        call_ensures(candidate, (path,), c),
        call_ensures(is_audio, (path,), audio),
    ensures
        b <==> (own matches Some(e) && lower(e@) == lower(ext@)),
        audio <==> c == Candidate::Audio,
        !audio && own is Some && lower(own->0@) == lower("cue"@) <==> c == Candidate::Cue,
        !audio && own is Some && lower(own->0@) == lower("iso"@) && c != Candidate::Cue <==> c
            == Candidate::Iso,
{
}

/// A sheet refers to a file by its name from the sheet's folder.
pub proof fn law_named_file_is_referenced(
    sheets: Vec<(String, CueSheet)>,
    path: &str,
    b: bool,
    s: int,
    f: int,
)
    requires
        call_ensures(is_referenced, (&sheets, path), b),
        0 <= s < sheets@.len(),
        0 <= f < sheets@[s].1.files@.len(),
    ensures
        ({
            let dir = sheets@[s].0@;
            let name = sheets@[s].1.files@[f].name@;
            &&& name.len() > 0 && name[0] == '/' && path@ == name ==> b
            &&& (name.len() == 0 || name[0] != '/') && dir.len() > 0 && dir.last() != '/' && path@
                == dir + seq!['/'] + name ==> b
            &&& (name.len() == 0 || name[0] != '/') && (dir.len() == 0 || dir.last() == '/')
                && path@ == dir + name ==> b
        }),
{
    reveal_strlit("/");
    assert("/"@ =~= seq!['/']);
    let dir = sheets@[s].0@;
    let name = sheets@[s].1.files@[f].name@;
    if path@ == joined_path(dir, name) {
        assert(comps(path@) == comps(joined_path(sheets@[s].0@, sheets@[s].1.files@[f].name@)));
        assert(referenced(sheets@, path@));
    }
}

/// A file is referred to only if a sheet names a file that is the same, step by step.
pub proof fn law_reference_names_the_file(sheets: Vec<(String, CueSheet)>, path: &str, b: bool)
    requires
        call_ensures(is_referenced, (&sheets, path), b),
        b,
    ensures
        exists|s: int, f: int|
            0 <= s < sheets@.len() && 0 <= f < sheets@[s].1.files@.len() && comps(path@) == comps(
                joined_path(#[trigger] sheets@[s].0@, #[trigger] sheets@[s].1.files@[f].name@),
            ),
{
}

/// Of the audio files exactly those that no sheet refers to are left, in their order.
pub proof fn law_referenced_files_are_left_out(
    paths: Vec<String>,
    more: Vec<String>,
    last: String,
    sheets: Vec<(String, CueSheet)>,
    a: Vec<String>,
    b: Vec<String>,
    path: &str,
    named: bool,
)
    requires
        call_ensures(unreferenced, (paths, &sheets), a),
        call_ensures(unreferenced, (more, &sheets), b),
        call_ensures(is_referenced, (&sheets, path), named),
        more@ == paths@.push(last),
        path@ == last@,
    ensures
        paths@.len() == 0 ==> a@.len() == 0,
        named ==> b@ == a@,
        !named ==> b@ == a@.push(last),
{
    let keep = |p: String| !referenced(sheets@, p@);
    reveal(Seq::filter);
    assert(more@.drop_last() =~= paths@);
    assert(a@ == paths@.filter(keep));
    assert(b@ == more@.filter(keep));
}

/// A known file is read again exactly if its time or its size has changed, or if a full scan is
/// asked for; a new one is always read.
pub proof fn law_changed_files_are_read(
    known: Option<FileState>,
    force: bool,
    mtime: i64,
    size: i64,
    c: Change,
)
    requires
        call_ensures(build_row, (known, force, mtime, size), c),
    ensures
        known is None ==> c == Change::Read(None),
        known matches Some(fs) ==> {
            let same = fs.mtime_ns == mtime && fs.size == size;
            &&& same && !force ==> c == Change::Unchanged(fs.id)
            &&& !same || force ==> c == Change::Read(Some(fs.id))
        },
{
}

/// Every file is counted once, by what became of it: failed, unchanged, updated, or new and not
/// settled yet. Only one that is in the library counts as seen, and only one that changed is
/// written.
pub proof fn law_files_are_counted_once(
    w: &mut ScanWriter,
    msg: Msg,
    op: WriteOp,
    n: i64,
    f: ScanWriter,
)
    requires
        call_ensures(ScanWriter::on_msg, (w, msg), op),
        call_ensures(ScanWriter::new, (), f),
        old(w).stats.errors < u64::MAX,
        old(w).stats.unchanged < u64::MAX,
        old(w).stats.updated < u64::MAX,
    ensures
        msg is Failed ==> {
            &&& final(w).stats.errors == old(w).stats.errors + 1
            &&& final(w).stats.unchanged == old(w).stats.unchanged
            &&& final(w).stats.updated == old(w).stats.updated
            &&& final(w).seen@ == old(w).seen@ && final(w).news@ == old(w).news@ && op is Nothing
        },
        msg matches Msg::Unchanged(id) ==> {
            &&& final(w).stats.unchanged == old(w).stats.unchanged + 1
            &&& final(w).stats.errors == old(w).stats.errors
            &&& final(w).stats.updated == old(w).stats.updated
            &&& final(w).seen@.contains(n) <==> old(w).seen@.contains(n) || n == id
            &&& final(w).news@ == old(w).news@ && op is Nothing
        },
        msg matches Msg::Upsert(row) ==> {
            &&& final(w).stats.errors == old(w).stats.errors
            &&& final(w).stats.unchanged == old(w).stats.unchanged
            &&& row.existing_id matches Some(id) ==> {
                &&& final(w).stats.updated == old(w).stats.updated + 1
                &&& final(w).seen@.contains(n) <==> old(w).seen@.contains(n) || n == id
                &&& final(w).news@ == old(w).news@ && op == WriteOp::Update(id, row)
            }
            &&& row.existing_id is None ==> {
                &&& final(w).stats.updated == old(w).stats.updated
                &&& final(w).seen@ == old(w).seen@
                &&& final(w).news@ == old(w).news@ + seq![row] && op is Nothing
            }
        },
        final(w).stats.added == old(w).stats.added && final(w).stats.moved == old(w).stats.moved
            && final(w).stats.removed == old(w).stats.removed,
        f.news@.len() == 0 && !f.seen@.contains(n) && f.stats.added == 0 && f.stats.updated == 0
            && f.stats.moved == 0 && f.stats.removed == 0 && f.stats.unchanged == 0
            && f.stats.errors == 0,
{
    if let Msg::Upsert(row) = msg {
        assert(old(w).news@.push(row) =~= old(w).news@ + seq![row]);
    }
}

/// Settling accounts for everything: a new file is a move from an entry that was not seen and has
/// its time and size, or it is added; two new files never move from the same entry; an entry is
/// deleted exactly if it was neither seen nor moved from.
pub proof fn law_settling_accounts_for_everything(
    w: &mut ScanWriter,
    existing: Vec<FileState>,
    p: NewsPlan,
    i: int,
    j: int,
    k: int,
)
    requires
        call_ensures(ScanWriter::settle, (w, &existing), p),
        distinct_ids(existing@),
        old(w).stats.moved + old(w).news@.len() <= u64::MAX,
        old(w).stats.added + old(w).news@.len() <= u64::MAX,
        old(w).stats.removed + existing@.len() <= u64::MAX,
        0 <= i < old(w).news@.len(),
        0 <= j < old(w).news@.len(),
        i != j,
        0 <= k < existing@.len(),
    ensures
        p.moves@.len() == old(w).news@.len(),
        p.moves@[i] matches Some(id) ==> !old(w).seen@.contains(id) && exists|m: int|
            0 <= m < existing@.len() && (#[trigger] existing@[m]).id == id && existing@[m].mtime_ns
                == old(w).news@[i].mtime_ns && existing@[m].size == old(w).news@[i].size,
        p.moves@[i] is Some ==> p.moves@[i] != p.moves@[j],
        p.removed@.contains(existing@[k].id) <==> !old(w).seen@.contains(existing@[k].id)
            && !p.moves@.contains(Some(existing@[k].id)),
        final(w).stats.moved + final(w).stats.added == old(w).stats.moved + old(w).stats.added
            + old(w).news@.len(),
        final(w).stats.removed == old(w).stats.removed + p.removed@.len(),
        final(w).stats.unchanged == old(w).stats.unchanged && final(w).stats.updated == old(
            w,
        ).stats.updated && final(w).stats.errors == old(w).stats.errors,
        final(w).news@ == old(w).news@ && final(w).seen@ == old(w).seen@,
{
    let news = old(w).news@;
    let seen = old(w).seen@;
    let g = gone(existing@, seen);
    law_moves_are_sound(existing@, seen, news, i, j);
    assert(p.moves@[i] == moved_from(g, news, i));
    assert(p.moves@[j] == moved_from(g, news, j));
    if p.moves@[i] is Some {
        let id = p.moves@[i]->0;
        let m = choose|m: int|
            0 <= m < g.len() && (#[trigger] g[m]).id == id && g[m].mtime_ns == news[i].mtime_ns
                && g[m].size == news[i].size;
        lemma_gone_from(existing@, seen, m);
        let e = choose|e: int| 0 <= e < existing@.len() && existing@[e] == g[m];
        assert(existing@[e].id == id);
    }
    assert(existing@[k].id == existing@[k].id);
    law_every_entry_is_settled(existing@, seen, p.moves@, existing@[k].id);
    lemma_moves_bound(p.moves@);
    lemma_left_bound(g, p.moves@);
    lemma_gone_bound(existing@, seen);
}

proof fn lemma_gone_from(existing: Seq<FileState>, seen: Set<i64>, m: int)
    requires
        0 <= m < gone(existing, seen).len(),
    ensures
        exists|e: int| 0 <= e < existing.len() && existing[e] == gone(existing, seen)[m],
    decreases existing.len(),
{
    if existing.len() > 0 {
        let t = existing.drop_last();
        let rest = gone(t, seen);
        if m < rest.len() {
            lemma_gone_from(t, seen, m);
            let e = choose|e: int| 0 <= e < t.len() && t[e] == rest[m];
            assert(existing[e] == gone(existing, seen)[m]);
        } else {
            assert(existing[existing.len() - 1] == gone(existing, seen)[m]);
        }
    }
}

proof fn lemma_moves_bound(moves: Seq<Option<i64>>)
    ensures
        count_moves(moves) <= moves.len(),
    decreases moves.len(),
{
    if moves.len() > 0 {
        lemma_moves_bound(moves.drop_last());
    }
}

proof fn lemma_left_bound(g: Seq<FileState>, moves: Seq<Option<i64>>)
    ensures
        left_over(g, moves).len() <= g.len(),
    decreases g.len(),
{
    if g.len() > 0 {
        lemma_left_bound(g.drop_last(), moves);
    }
}

proof fn lemma_gone_bound(existing: Seq<FileState>, seen: Set<i64>)
    ensures
        gone(existing, seen).len() <= existing.len(),
    decreases existing.len(),
{
    if existing.len() > 0 {
        lemma_gone_bound(existing.drop_last(), seen);
    }
}

proof fn lemma_sole_claim(news: Seq<Row>, i: int, n: int, m: i64, z: i64)
    requires
        forall|j: int|
            0 <= j < n ==> !((#[trigger] news[j]).mtime_ns == m && news[j].size == z),
    ensures
        claims(news, n, m, z) == 0,
    decreases n,
{
    if n > 0 {
        assert(!(news[n - 1].mtime_ns == m && news[n - 1].size == z));
        lemma_sole_claim(news, i, n - 1, m, z);
    }
}

/// A renamed file is recognised: a new file that is the first with the time and size of an entry
/// that was not seen is a move, and keeps an entry of that time and size.
pub proof fn law_renamed_file_keeps_its_entry(
    w: &mut ScanWriter,
    existing: Vec<FileState>,
    p: NewsPlan,
    i: int,
    k: int,
)
    requires
        call_ensures(ScanWriter::settle, (w, &existing), p),
        0 <= i < old(w).news@.len(),
        0 <= k < existing@.len(),
        !old(w).seen@.contains(existing@[k].id),
        existing@[k].mtime_ns == old(w).news@[i].mtime_ns,
        existing@[k].size == old(w).news@[i].size,
        forall|j: int|
            0 <= j < i ==> !((#[trigger] old(w).news@[j]).mtime_ns == existing@[k].mtime_ns && old(
                w,
            ).news@[j].size == existing@[k].size),
    ensures
        p.moves@.len() == old(w).news@.len(),
        p.moves@[i] is Some,
{
    let news = old(w).news@;
    let seen = old(w).seen@;
    let g = gone(existing@, seen);
    let (m, z) = (news[i].mtime_ns, news[i].size);
    lemma_sole_claim(news, i, i, m, z);
    lemma_entry_gone(existing@, seen, k);
    let q = choose|q: int| 0 <= q < g.len() && g[q] == existing@[k];
    lemma_in_sig(g, m, z, q);
    assert(p.moves@[i] == moved_from(g, news, i));
}

proof fn lemma_entry_gone(existing: Seq<FileState>, seen: Set<i64>, k: int)
    requires
        0 <= k < existing.len(),
        !seen.contains(existing[k].id),
    ensures
        exists|q: int|
            0 <= q < gone(existing, seen).len() && gone(existing, seen)[q] == existing[k],
    decreases existing.len(),
{
    let t = existing.drop_last();
    let g = gone(existing, seen);
    if k < t.len() {
        lemma_entry_gone(t, seen, k);
        let q = choose|q: int| 0 <= q < gone(t, seen).len() && gone(t, seen)[q] == t[k];
        assert(g[q] == existing[k]);
    } else {
        assert(g[g.len() - 1] == existing[k]);
    }
}

/// A track inside a file is known by the file, a hash and digits; anything else is a file of its
/// own.
pub proof fn law_track_inside_a_file_names_it(
    path: &str,
    r: Option<String>,
    file: Seq<char>,
    tail: Seq<char>,
)
    requires
        call_ensures(strip_cue_suffix, (path,), r),
        path@ == file + seq!['#'] + tail,
        forall|i: int| 0 <= i < tail.len() ==> tail[i] != '#',
    ensures
        tail.len() > 0 && (forall|i: int| 0 <= i < tail.len() ==> '0' <= #[trigger] tail[i] <= '9')
            ==> (r matches Some(f) && f@ == file),
        tail.len() == 0 ==> r is None,
        (exists|i: int| 0 <= i < tail.len() && !('0' <= #[trigger] tail[i] <= '9')) ==> r is None,
{
    let p = path@;
    let k = file.len() as int;
    assert(p[k] == '#');
    assert forall|i: int| k < i < p.len() implies p[i] != '#' by {
        assert(p[i] == tail[i - k - 1]);
    }
    lemma_last_hash(p, k);
    assert(p.skip(k + 1) =~= tail);
    assert(p.take(k) =~= file);
    if exists|i: int| 0 <= i < tail.len() && !('0' <= #[trigger] tail[i] <= '9') {
        let i = choose|i: int| 0 <= i < tail.len() && !('0' <= #[trigger] tail[i] <= '9');
        assert(!is_digit(tail[i]));
    }
}

/// A path without a hash names no track inside a file.
pub proof fn law_plain_path_is_a_file(path: &str, r: Option<String>)
    requires
        call_ensures(strip_cue_suffix, (path,), r),
        forall|i: int| 0 <= i < path@.len() ==> path@[i] != '#',
    ensures
        r is None,
{
    lemma_no_hash(path@);
}

proof fn lemma_no_hash(s: Seq<char>)
    requires
        forall|i: int| 0 <= i < s.len() ==> s[i] != '#',
    ensures
        last_hash(s) == -1,
    decreases s.len(),
{
    if s.len() > 0 {
        lemma_no_hash(s.drop_last());
    }
}

/// A track of a disc image has its number behind the image's path, counted from one; a track with
/// a start of its own, or without a source, is none.
pub proof fn law_disc_track_is_told_by_its_number(
    t: Track,
    r: Option<usize>,
    src: String,
    tail: Seq<char>,
)
    requires
        call_ensures(Track::sacd_track, (&t,), r),
        all_digits(tail),
        tail.len() > 0,
        t.path@ == src@ + seq!['#'] + tail,
    ensures
        t.start_ms is Some || t.source_path is None ==> r is None,
        t.source_path is Some && t.source_path->0@ != src@ ==> r is None,
        t.start_ms is None && t.source_path is Some && t.source_path->0@ == src@ ==> {
            let n = digits_value(tail);
            &&& 1 <= n <= u32::MAX ==> (r matches Some(k) && k + 1 == n)
            &&& n == 0 || n > u32::MAX ==> r is None
        },
{
    let p = t.path@;
    let k = src@.len() as int;
    assert(p[k] == '#');
    assert forall|i: int| k < i < p.len() implies p[i] != '#' by {
        assert(p[i] == tail[i - k - 1]);
        assert(is_digit(tail[i - k - 1]));
    }
    lemma_last_hash(p, k);
    assert(p.skip(k + 1) =~= tail);
    assert(p.take(k) =~= src@);
}

/// A pattern is escaped character by character: the three that a pattern reads otherwise get a
/// backslash in front, all others stay. The pattern for the tracks inside a file is its escaped
/// path, a hash, and anything.
pub proof fn law_patterns_are_escaped(
    a: &str,
    b: &str,
    c: char,
    x: String,
    y: String,
    p: String,
)
    requires
        call_ensures(escape_like, (a,), x),
        call_ensures(escape_like, (b,), y),
        call_ensures(tracks_pattern, (a,), p),
        b@ == a@.push(c),
    ensures
        a@.len() == 0 ==> x@.len() == 0,
        c == '\\' || c == '%' || c == '_' ==> y@ == x@.push('\\').push(c),
        c != '\\' && c != '%' && c != '_' ==> y@ == x@.push(c),
        p@ == x@ + seq!['#', '%'],
{
    assert(b@.drop_last() =~= a@);
    reveal_strlit("#%");
    assert("#%"@ =~= seq!['#', '%']);
}

/// Every track of every file of a sheet that could be read gets a row, numbered through: its own
/// title or its number, its own performer or the sheet's, and what the sheet says of all.
pub proof fn law_sheet_rows_say_what_the_sheet_says(
    key: &str,
    folder: &str,
    sheet: CueSheet,
    infos: Vec<Option<AudioInfo>>,
    sig: (i64, i64),
    rows: Vec<VirtualRow>,
    f: int,
    i: int,
)
    requires
        call_ensures(insert_cue_tracks, (key, folder, &sheet, &infos, sig), rows),
        infos@.len() == sheet.files@.len(),
        tracks_before(sheet, infos@, infos@.len() as int) < u64::MAX,
        0 <= f < infos@.len(),
        infos@[f] is Some,
        0 <= i < sheet.files@[f].tracks@.len(),
    ensures
        ({
            let n = tracks_before(sheet, infos@, f) + i;
            let r = rows@[n];
            let t = sheet.files@[f].tracks@[i];
            let info = infos@[f]->0;
            &&& n < rows@.len()
            &&& r.path@ == key@ + seq!['#'] + padded((n + 1) as nat, 3)
            &&& r.folder@ == folder@
            &&& t.title matches Some(s) ==> r.title@ == s@
            &&& t.title is None ==> r.title@ == "Track "@ + padded(t.number as nat, 2)
            &&& t.performer is Some ==> r.artist == t.performer
            &&& t.performer is None ==> r.artist == sheet.performer
            &&& r.album_artist == sheet.performer
            &&& r.album == sheet.title
            &&& r.genre == sheet.genre
            &&& r.year == sheet.date
            &&& r.track_no == t.number
            &&& r.start_ms == Some(t.start_ms)
            &&& r.source_path == info.source
            &&& r.codec == info.codec && r.sample_rate == info.sample_rate && r.bits == info.bits
            &&& r.channels == info.channels && r.art_hash == info.art_hash
            &&& r.mtime_ns == sig.0 && r.size == sig.1
        }),
{
    reveal_strlit("#");
    assert("#"@ =~= seq!['#']);
    let args = (key, folder, &sheet, &infos, sig);
    assert(args.2.files@[f].tracks@[i] == sheet.files@[f].tracks@[i]);
    lemma_before_grows(sheet, infos@, f + 1, infos@.len() as int);
}

/// A track of a sheet lasts until the next one of its file starts, the last one until the file
/// ends; there are as many rows as tracks in the files that could be read.
pub proof fn law_sheet_rows_last_until_the_next(
    key: &str,
    folder: &str,
    sheet: CueSheet,
    infos: Vec<Option<AudioInfo>>,
    sig: (i64, i64),
    rows: Vec<VirtualRow>,
    f: int,
    i: int,
)
    requires
        call_ensures(insert_cue_tracks, (key, folder, &sheet, &infos, sig), rows),
        infos@.len() == sheet.files@.len(),
        tracks_before(sheet, infos@, infos@.len() as int) < u64::MAX,
        0 <= f < infos@.len(),
        infos@[f] is Some,
        0 <= i < sheet.files@[f].tracks@.len(),
    ensures
        ({
            let r = rows@[tracks_before(sheet, infos@, f) + i];
            let ts = sheet.files@[f].tracks@;
            let start = ts[i].start_ms;
            &&& rows@.len() == tracks_before(sheet, infos@, infos@.len() as int)
            &&& i + 1 < ts.len() && ts[i + 1].start_ms >= start ==> start + r.duration_ms == ts[i
                + 1].start_ms
            &&& i + 1 < ts.len() && ts[i + 1].start_ms < start ==> r.duration_ms == 0
            &&& i + 1 == ts.len() ==> {
                &&& infos@[f]->0.duration_ms matches Some(d) ==> d >= start ==> start
                    + r.duration_ms == d
                &&& infos@[f]->0.duration_ms matches Some(d) ==> d < start ==> r.duration_ms == 0
                &&& infos@[f]->0.duration_ms is None ==> r.duration_ms == 0
            }
        }),
{
    let args = (key, folder, &sheet, &infos, sig);
    assert(args.2.files@[f].tracks@[i] == sheet.files@[f].tracks@[i]);
}

/// Every track of a disc image gets a row under its number: its own title or its number, its own
/// artist or the album's, the image as its source, and no start.
pub proof fn law_disc_rows_say_what_the_disc_says(
    key: &str,
    folder: &str,
    album: SacdAlbum,
    art: Option<String>,
    sig: (i64, i64),
    rows: Vec<VirtualRow>,
    i: int,
)
    requires
        call_ensures(insert_iso_tracks, (key, folder, &album, &art, sig), rows),
        album.tracks@.len() < u32::MAX,
        0 <= i < album.tracks@.len(),
    ensures
        rows@.len() == album.tracks@.len(),
        ({
            let r = rows@[i];
            let t = album.tracks@[i];
            &&& r.path@ == key@ + seq!['#'] + padded((i + 1) as nat, 3)
            &&& r.folder@ == folder@
            &&& t.title matches Some(s) ==> r.title@ == s@
            &&& t.title is None ==> r.title@ == "Track "@ + padded((i + 1) as nat, 2)
            &&& t.artist is Some ==> r.artist == t.artist
            &&& t.artist is None ==> r.artist == album.album_artist
            &&& r.album_artist == album.album_artist
            &&& r.album == album.album
            &&& r.track_no == i + 1
            &&& r.duration_ms == t.duration_ms
            &&& r.channels == Some(album.channels)
            &&& r.art_hash == art
            &&& r.source_path@ == key@
            &&& r.start_ms is None && r.genre is None && r.year is None && r.sample_rate is None
            &&& r.bits is None && (r.codec matches Some(c) && c@ == "DSD64"@)
            &&& r.mtime_ns == sig.0 && r.size == sig.1
        }),
{
    reveal_strlit("#");
    assert("#"@ =~= seq!['#']);
    assert(is_iso_row(rows@[i], key@, folder@, album, i, art, sig));
}

/// The rows of a sheet are numbered through: each file that could be read takes as many numbers
/// as it has tracks, behind those of the files before it.
pub proof fn law_rows_are_numbered_through(sheet: CueSheet, infos: Seq<Option<AudioInfo>>, f: int)
    requires
        0 <= f < infos.len(),
    ensures
        tracks_before(sheet, infos, 0) == 0,
        infos[f] is Some ==> tracks_before(sheet, infos, f + 1) == tracks_before(sheet, infos, f)
            + sheet.files@[f].tracks@.len(),
        infos[f] is None ==> tracks_before(sheet, infos, f + 1) == tracks_before(sheet, infos, f),
{
}

/// The new files that are moves.
pub open spec fn moved_places(moves: Seq<Option<i64>>) -> Set<int> {
    Set::new(|i: int| 0 <= i < moves.len() && moves[i] is Some)
}

proof fn lemma_count_moves(moves: Seq<Option<i64>>)
    ensures
        moved_places(moves).finite(),
        moved_places(moves).len() == count_moves(moves),
    decreases moves.len(),
{
    let s = moved_places(moves);
    if moves.len() == 0 {
        assert(s =~= Set::empty());
    } else {
        let n = moves.len() - 1;
        let t = moved_places(moves.drop_last());
        lemma_count_moves(moves.drop_last());
        if moves[n] is Some {
            assert(s =~= t.insert(n));
            assert(!t.contains(n));
        } else {
            assert(s =~= t);
        }
    }
}

proof fn lemma_left_distinct(g: Seq<FileState>, moves: Seq<Option<i64>>)
    requires
        distinct_ids(g),
    ensures
        left_over(g, moves).no_duplicates(),
    decreases g.len(),
{
    if g.len() > 0 {
        let t = g.drop_last();
        assert(distinct_ids(t));
        lemma_left_distinct(t, moves);
        let rest = left_over(t, moves);
        let id = g.last().id;
        if rest.contains(id) {
            lemma_left_over(t, moves, id);
            let i = choose|i: int| 0 <= i < t.len() && (#[trigger] t[i]).id == id;
            assert(g[i].id != g[g.len() - 1].id);
        }
        let all = left_over(g, moves);
        assert forall|i: int, j: int| 0 <= i < all.len() && 0 <= j < all.len() && i != j implies all[i]
            != all[j] by {
            if i < rest.len() && j < rest.len() {
                assert(rest[i] != rest[j]);
            } else if i < rest.len() {
                assert(rest[i] == all[i]);
                assert(rest.contains(all[i]));
            } else {
                assert(rest[j] == all[j]);
                assert(rest.contains(all[j]));
            }
        }
    }
}

/// Moves count as moved, the other new files as added, and what is deleted is deleted once.
pub proof fn law_settling_is_counted(w: &mut ScanWriter, existing: Vec<FileState>, p: NewsPlan)
    requires
        call_ensures(ScanWriter::settle, (w, &existing), p),
        distinct_ids(existing@),
        old(w).stats.moved + old(w).news@.len() <= u64::MAX,
        old(w).stats.added + old(w).news@.len() <= u64::MAX,
        old(w).stats.removed + existing@.len() <= u64::MAX,
    ensures
        final(w).stats.moved == old(w).stats.moved + moved_places(p.moves@).len(),
        final(w).stats.added == old(w).stats.added + old(w).news@.len() - moved_places(
            p.moves@,
        ).len(),
        p.removed@.no_duplicates(),
{
    let g = gone(existing@, old(w).seen@);
    lemma_count_moves(p.moves@);
    lemma_moves_bound(p.moves@);
    lemma_gone_distinct(existing@, old(w).seen@);
    lemma_left_distinct(g, p.moves@);
}

/// A track is one of a disc image only if its path leads to the image that is its source.
pub proof fn law_disc_track_lies_in_its_source(t: Track, path: &str, s: Option<String>, r: Option<usize>)
    requires
        call_ensures(Track::sacd_track, (&t,), r),
        call_ensures(strip_cue_suffix, (path,), s),
        path@ == t.path@,
        r is Some,
    ensures
        t.start_ms is None,
        t.source_path is Some,
        s is Some,
        s->0@ == t.source_path->0@,
{
}

proof fn lemma_no_sig(existing: Seq<FileState>, seen: Set<i64>, m: i64, z: i64)
    requires
        forall|j: int|
            0 <= j < existing.len() ==> seen.contains((#[trigger] existing[j]).id) || existing[j].mtime_ns
                != m || existing[j].size != z,
    ensures
        with_sig(gone(existing, seen), m, z).len() == 0,
    decreases existing.len(),
{
    if existing.len() > 0 {
        let t = existing.drop_last();
        assert forall|j: int| 0 <= j < t.len() implies seen.contains((#[trigger] t[j]).id)
            || t[j].mtime_ns != m || t[j].size != z by {
            assert(t[j] == existing[j]);
        }
        lemma_no_sig(t, seen, m, z);
        let last = existing[existing.len() - 1];
        assert(seen.contains(last.id) || last.mtime_ns != m || last.size != z);
        if !seen.contains(last.id) {
            assert(gone(existing, seen).drop_last() =~= gone(t, seen));
        }
    }
}

proof fn lemma_first_sig(existing: Seq<FileState>, seen: Set<i64>, m: i64, z: i64, k: int)
    requires
        0 <= k < existing.len(),
        !seen.contains(existing[k].id),
        existing[k].mtime_ns == m,
        existing[k].size == z,
        forall|j: int|
            0 <= j < k ==> seen.contains((#[trigger] existing[j]).id) || existing[j].mtime_ns != m
                || existing[j].size != z,
    ensures
        with_sig(gone(existing, seen), m, z).len() > 0,
        with_sig(gone(existing, seen), m, z)[0] == existing[k].id,
    decreases existing.len(),
{
    let t = existing.drop_last();
    let last = existing[existing.len() - 1];
    if !seen.contains(last.id) {
        assert(gone(existing, seen).drop_last() =~= gone(t, seen));
    }
    if k < t.len() {
        assert forall|j: int| 0 <= j < k implies seen.contains((#[trigger] t[j]).id)
            || t[j].mtime_ns != m || t[j].size != z by {
            assert(t[j] == existing[j]);
        }
        lemma_first_sig(t, seen, m, z, k);
    } else {
        assert forall|j: int| 0 <= j < t.len() implies seen.contains((#[trigger] t[j]).id)
            || t[j].mtime_ns != m || t[j].size != z by {
            assert(t[j] == existing[j]);
        }
        lemma_no_sig(t, seen, m, z);
    }
}

/// Entries are found again in their order: the first new file with a time and size moves from the
/// first entry with them that was not seen.
pub proof fn law_first_entry_is_found_first(
    w: &mut ScanWriter,
    existing: Vec<FileState>,
    p: NewsPlan,
    i: int,
    k: int,
)
    requires
        call_ensures(ScanWriter::settle, (w, &existing), p),
        0 <= i < old(w).news@.len(),
        0 <= k < existing@.len(),
        !old(w).seen@.contains(existing@[k].id),
        existing@[k].mtime_ns == old(w).news@[i].mtime_ns,
        existing@[k].size == old(w).news@[i].size,
        forall|j: int|
            0 <= j < i ==> !((#[trigger] old(w).news@[j]).mtime_ns == existing@[k].mtime_ns && old(
                w,
            ).news@[j].size == existing@[k].size),
        forall|j: int|
            0 <= j < k ==> old(w).seen@.contains((#[trigger] existing@[j]).id)
                || existing@[j].mtime_ns != existing@[k].mtime_ns || existing@[j].size
                != existing@[k].size,
    ensures
        p.moves@.len() == old(w).news@.len(),
        p.moves@[i] == Some(existing@[k].id),
{
    let news = old(w).news@;
    let seen = old(w).seen@;
    let g = gone(existing@, seen);
    let (m, z) = (news[i].mtime_ns, news[i].size);
    lemma_sole_claim(news, i, i, m, z);
    lemma_first_sig(existing@, seen, m, z, k);
    assert(p.moves@[i] == moved_from(g, news, i));
}

} // verus!
