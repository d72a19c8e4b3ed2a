//! The sheets and disc images of the library: which are known, which have changed, which are
//! gone.
use crate::cue::{CueFile, CueSheet};
use crate::scan::{file_of_track, strip_cue_suffix};
use crate::text::{chars_of, spells};
use vstd::prelude::*;
use vstd::string::*;

verus! {

/// The track of a sheet or a disc image in the library: its path, and the time and size that
/// the sheet or the image had when it was read.
pub struct SigRow {
    pub path: String,
    pub sig: (i64, i64),
}

/// A sheet or a disc image in the library.
pub struct Group {
    pub key: String,
    /// The signature of its first track.
    pub first: (i64, i64),
    /// The signature of its last track.
    pub last: (i64, i64),
    pub count: u64,
}

pub struct GroupView {
    pub key: Seq<char>,
    pub first: (i64, i64),
    pub last: (i64, i64),
    pub count: nat,
}

impl View for Group {
    type V = GroupView;

    open spec fn view(&self) -> GroupView {
        GroupView {
            key: self.key@,
            first: self.first,
            last: self.last,
            count: self.count as nat,
        }
    }
}

pub open spec fn group_views(gs: Seq<Group>) -> Seq<GroupView> {
    gs.map_values(|g: Group| g@)
}

/// The place of a key, or the length.
pub open spec fn group_at(gs: Seq<GroupView>, key: Seq<char>) -> int
    decreases gs.len(),
{
    if gs.len() == 0 || gs[0].key == key {
        0
    } else {
        1 + group_at(gs.skip(1), key)
    }
}

/// The groups with one more track.
pub open spec fn with_track(gs: Seq<GroupView>, key: Seq<char>, sig: (i64, i64)) -> Seq<
    GroupView,
> {
    let k = group_at(gs, key);
    if k < gs.len() {
        gs.update(k, GroupView { last: sig, count: gs[k].count + 1, ..gs[k] })
    } else {
        gs.push(GroupView { key, first: sig, last: sig, count: 1 })
    }
}

/// The sheets or images that the first `n` tracks belong to. A path that names no track inside
/// a file counts for nothing.
pub open spec fn grouped(rows: Seq<SigRow>, n: nat) -> Seq<GroupView>
    decreases n,
{
    if n == 0 {
        Seq::empty()
    } else {
        let before = grouped(rows, (n - 1) as nat);
        match file_of_track(rows[n - 1].path@) {
            Some(key) => with_track(before, key, rows[n - 1].sig),
            None => before,
        }
    }
}

proof fn lemma_group_at(gs: Seq<GroupView>, key: Seq<char>, k: int)
    requires
        0 <= k <= gs.len(),
        forall|i: int| 0 <= i < k ==> (#[trigger] gs[i]).key != key,
        k < gs.len() ==> gs[k].key == key,
    ensures
        group_at(gs, key) == k,
    decreases gs.len(),
{
    if gs.len() > 0 && k > 0 {
        assert(gs[0].key != key);
        let u = gs.skip(1);
        assert forall|i: int| 0 <= i < k - 1 implies (#[trigger] u[i]).key != key by {
            assert(u[i] == gs[i + 1]);
        }
        lemma_group_at(u, key, k - 1);
    }
}

proof fn lemma_group_at_is(gs: Seq<GroupView>, key: Seq<char>)
    ensures
        0 <= group_at(gs, key) <= gs.len(),
        group_at(gs, key) < gs.len() ==> gs[group_at(gs, key)].key == key,
        forall|i: int| 0 <= i < group_at(gs, key) ==> (#[trigger] gs[i]).key != key,
    decreases gs.len(),
{
    if gs.len() > 0 && gs[0].key != key {
        lemma_group_at_is(gs.skip(1), key);
        assert forall|i: int| 0 <= i < group_at(gs, key) implies (#[trigger] gs[i]).key != key by {
            if i > 0 {
                assert(gs.skip(1)[i - 1] == gs[i]);
            }
        }
    }
}

fn find_group(gs: &Vec<Group>, key: &str) -> (k: usize)
    ensures
        k == group_at(group_views(gs@), key@),
        k <= gs@.len(),
{
    let c = chars_of(key);
    for k in 0..gs.len()
        invariant
            c@ == key@,
            forall|i: int| 0 <= i < k ==> (#[trigger] group_views(gs@)[i]).key != key@,
    {
        if spells(c.as_slice(), gs[k].key.as_str()) {
            proof {
                lemma_group_at(group_views(gs@), key@, k as int);
            }
            return k;
        }
        assert(group_views(gs@)[k as int].key != key@);
    }
    proof {
        lemma_group_at(group_views(gs@), key@, gs@.len() as int);
    }
    gs.len()
}

proof fn lemma_grouped_bound(rows: Seq<SigRow>, n: nat, k: int)
    requires
        n <= rows.len(),
        0 <= k < grouped(rows, n).len(),
    ensures
        grouped(rows, n)[k].count <= n,
    decreases n,
{
    if n > 0 {
        let before = grouped(rows, (n - 1) as nat);
        if let Some(key) = file_of_track(rows[n - 1].path@) {
            lemma_group_at_is(before, key);
            let at = group_at(before, key);
            if at < before.len() {
                lemma_grouped_bound(rows, (n - 1) as nat, k);
            } else if k < before.len() {
                lemma_grouped_bound(rows, (n - 1) as nat, k);
            }
        } else {
            lemma_grouped_bound(rows, (n - 1) as nat, k);
        }
    }
}

/// The sheets or images that tracks in the library belong to.
pub fn load_existing(rows: &Vec<SigRow>) -> (gs: Vec<Group>)
    ensures
        group_views(gs@) == grouped(rows@, rows@.len()),
{
    let mut gs: Vec<Group> = Vec::new();
    assert(group_views(gs@) =~= Seq::empty());
    for i in 0..rows.len()
        invariant
            group_views(gs@) == grouped(rows@, i as nat),
    {
        let ghost before = group_views(gs@);
        if let Some(key) = strip_cue_suffix(rows[i].path.as_str()) {
            let sig: (i64, i64) = rows[i].sig;
            let k: usize = find_group(&gs, key.as_str());
            if k < gs.len() {
                proof {
                    lemma_grouped_bound(rows@, i as nat, k as int);
                    assert(before[k as int].count <= i);
                }
                let g = Group {
                    key: gs[k].key.clone(),
                    first: gs[k].first,
                    last: sig,
                    count: gs[k].count + 1,
                };
                gs.set(k, g);
            } else {
                gs.push(Group { key, first: sig, last: sig, count: 1 });
            }
            assert(group_views(gs@) =~= with_track(before, key@, sig));
        }
    }
    gs
}

/// No sheet or image is listed twice.
pub proof fn law_groups_are_distinct(rows: Seq<SigRow>, n: nat, i: int, j: int)
    requires
        n <= rows.len(),
        0 <= i < j < grouped(rows, n).len(),
    ensures
        grouped(rows, n)[i].key != grouped(rows, n)[j].key,
    decreases n,
{
    if n > 0 {
        let before = grouped(rows, (n - 1) as nat);
        if let Some(key) = file_of_track(rows[n - 1].path@) {
            lemma_group_at_is(before, key);
            if j < before.len() {
                law_groups_are_distinct(rows, (n - 1) as nat, i, j);
            }
        } else {
            law_groups_are_distinct(rows, (n - 1) as nat, i, j);
        }
    }
}

/// What to do about a sheet or an image that was found.
#[derive(Clone, Copy, Debug, PartialEq, Eq, Structural)]
pub enum Visit {
    /// It could not be looked at: leave it as it is.
    Skip,
    /// Its tracks stand in the library as they are.
    Unchanged,
    /// Delete its tracks and read it again.
    Rebuild,
}

/// The sheets of a library, or its disc images, while a scan goes through the files.
pub struct VirtualScan {
    pub known: Vec<Group>,
    /// What was found.
    pub current: Vec<String>,
}

/// The signature that counts for a known sheet or image: that of its first track for a sheet,
/// that of its last for an image.
pub open spec fn sig_of(known: Seq<GroupView>, key: Seq<char>, disc: bool) -> Option<(i64, i64)> {
    let k = group_at(known, key);
    if k < known.len() {
        Some(
            if disc {
                known[k].last
            } else {
                known[k].first
            },
        )
    } else {
        None
    }
}

/// How many tracks of a sheet or image the library has.
pub open spec fn tracks_known(known: Seq<GroupView>, key: Seq<char>) -> nat {
    let k = group_at(known, key);
    if k < known.len() {
        known[k].count
    } else {
        0
    }
}

pub open spec fn strings(v: Seq<String>) -> Seq<Seq<char>> {
    v.map_values(|s: String| s@)
}

/// The keys of the first `n` known ones that were not found, in order.
pub open spec fn missing(known: Seq<GroupView>, current: Seq<Seq<char>>, n: nat) -> Seq<Seq<char>>
    decreases n,
{
    if n == 0 {
        Seq::empty()
    } else {
        let before = missing(known, current, (n - 1) as nat);
        if current.contains(known[n - 1].key) {
            before
        } else {
            before.push(known[n - 1].key)
        }
    }
}

impl VirtualScan {
    pub fn new(rows: &Vec<SigRow>) -> (v: Self)
        ensures
            group_views(v.known@) == grouped(rows@, rows@.len()),
            v.current@ == Seq::<String>::empty(),
    {
        VirtualScan { known: load_existing(rows), current: Vec::new() }
    }

    /// Takes note of a sheet or an image that was found. It is unchanged if the library read
    /// it at this time and size.
    pub fn visit(&mut self, key: &str, sig: Option<(i64, i64)>, disc: bool) -> (r: Visit)
        ensures
            final(self).known@ == old(self).known@,
            strings(final(self).current@) == strings(old(self).current@).push(key@),
            r == (match sig {
                None => Visit::Skip,
                Some(s) => if sig_of(group_views(old(self).known@), key@, disc) == Some(s) {
                    Visit::Unchanged
                } else {
                    Visit::Rebuild
                },
            }),
    {
        let ghost before = strings(self.current@);
        self.current.push(String::from_str(key));
        assert(strings(self.current@) =~= before.push(key@));
        match sig {
            None => Visit::Skip,
            Some(s) => {
                let k: usize = find_group(&self.known, key);
                if k < self.known.len() {
                    let have: (i64, i64) = if disc {
                        self.known[k].last
                    } else {
                        self.known[k].first
                    };
                    if have.0 == s.0 && have.1 == s.1 {
                        return Visit::Unchanged;
                    }
                }
                Visit::Rebuild
            },
        }
    }

    /// How many tracks of a sheet or image the library has.
    pub fn count(&self, key: &str) -> (n: u64)
        ensures
            n == tracks_known(group_views(self.known@), key@),
    {
        let k: usize = find_group(&self.known, key);
        if k < self.known.len() {
            self.known[k].count
        } else {
            0
        }
    }

    /// The known ones that were not found: their tracks are to be deleted.
    pub fn vanished(&self) -> (r: Vec<String>)
        ensures
            strings(r@) == missing(
                group_views(self.known@),
                strings(self.current@),
                self.known@.len(),
            ),
    {
        let mut r: Vec<String> = Vec::new();
        assert(strings(r@) =~= Seq::empty());
        for i in 0..self.known.len()
            invariant
                strings(r@) == missing(
                    group_views(self.known@),
                    strings(self.current@),
                    i as nat,
                ),
        {
            let ghost before = strings(r@);
            let key = &self.known[i].key;
            if !holds_text(&self.current, key.as_str()) {
                r.push(key.clone());
                assert(strings(r@) =~= before.push(key@));
            }
        }
        r
    }
}

fn holds_text(v: &Vec<String>, s: &str) -> (b: bool)
    ensures
        b == strings(v@).contains(s@),
{
    let c = chars_of(s);
    for i in 0..v.len()
        invariant
            c@ == s@,
            forall|j: int| 0 <= j < i ==> strings(v@)[j] != s@,
    {
        if spells(c.as_slice(), v[i].as_str()) {
            assert(strings(v@)[i as int] == s@);
            return true;
        }
        assert(strings(v@)[i as int] != s@);
    }
    false
}

/// What was found is never deleted for being gone.
pub proof fn law_found_is_not_missing(
    known: Seq<GroupView>,
    current: Seq<Seq<char>>,
    n: nat,
    key: Seq<char>,
)
    requires
        n <= known.len(),
        current.contains(key),
    ensures
        !missing(known, current, n).contains(key),
    decreases n,
{
    if n > 0 {
        law_found_is_not_missing(known, current, (n - 1) as nat, key);
        let before = missing(known, current, (n - 1) as nat);
        let last = known[n - 1].key;
        if !current.contains(last) {
            let after = before.push(last);
            assert forall|i: int| 0 <= i < after.len() implies after[i] != key by {
                if i < before.len() {
                    assert(before.contains(before[i]));
                }
            }
        }
    }
}

/// How many tracks the files of a sheet have.
pub open spec fn sheet_tracks(files: Seq<CueFile>) -> nat
    decreases files.len(),
{
    if files.len() == 0 {
        0
    } else {
        sheet_tracks(files.drop_last()) + files.last().tracks@.len()
    }
}

proof fn lemma_sheet_tracks_grow(files: Seq<CueFile>, n: int)
    requires
        0 <= n <= files.len(),
    ensures
        sheet_tracks(files.take(n)) <= sheet_tracks(files),
    decreases files.len() - n,
{
    if n == files.len() {
        assert(files.take(n) =~= files);
    } else {
        lemma_sheet_tracks_grow(files, n + 1);
        assert(files.take(n + 1).drop_last() =~= files.take(n));
    }
}

/// How many tracks a sheet has.
pub fn count_tracks(sheet: &CueSheet) -> (n: u64)
    requires
        sheet_tracks(sheet.files@) <= u64::MAX,
    ensures
        n == sheet_tracks(sheet.files@),
{
    let mut n: u64 = 0;
    let ghost files = sheet.files@;
    for i in 0..sheet.files.len()
        invariant
            files == sheet.files@,
            sheet_tracks(files) <= u64::MAX,
            n == sheet_tracks(files.take(i as int)),
    {
        proof {
            lemma_sheet_tracks_grow(files, i + 1);
            assert(files.take(i + 1).drop_last() =~= files.take(i as int));
        }
        n = n + sheet.files[i].tracks.len() as u64;
    }
    assert(files.take(files.len() as int) =~= files);
    n
}

/// A row is that of a track inside the given file.
pub open spec fn belongs(row: SigRow, key: Seq<char>) -> bool {
    file_of_track(row.path@) == Some(key)
}

/// How many of the first `n` rows are tracks inside a file.
pub open spec fn rows_with(rows: Seq<SigRow>, key: Seq<char>, n: int) -> nat
    decreases n,
{
    if n <= 0 {
        0
    } else {
        rows_with(rows, key, n - 1) + if belongs(rows[n - 1], key) {
            1nat
        } else {
            0nat
        }
    }
}

proof fn lemma_with_track_at(gs: Seq<GroupView>, other: Seq<char>, sig: (i64, i64), key: Seq<char>)
    ensures
        ({
            let after = with_track(gs, other, sig);
            let k = group_at(gs, key);
            let m = group_at(after, key);
            &&& other != key ==> {
                &&& k < gs.len() <==> m < after.len()
                &&& k < gs.len() ==> after[m] == gs[k]
            }
            &&& other == key ==> {
                &&& m < after.len()
                &&& after[m].key == key
                &&& after[m].last == sig
                &&& k < gs.len() ==> after[m].first == gs[k].first && after[m].count == gs[k].count
                    + 1
                &&& k >= gs.len() ==> after[m].first == sig && after[m].count == 1
            }
        }),
{
    let after = with_track(gs, other, sig);
    let k = group_at(gs, key);
    let o = group_at(gs, other);
    lemma_group_at_is(gs, key);
    lemma_group_at_is(gs, other);
    lemma_group_at_is(after, key);
    if o < gs.len() {
        assert forall|i: int| 0 <= i < after.len() implies (#[trigger] after[i]).key == gs[i].key by {
        }
        if k < gs.len() {
            assert forall|i: int| 0 <= i < k implies (#[trigger] after[i]).key != key by {
                assert(gs[i].key != key);
            }
            lemma_group_at(after, key, k);
        } else {
            assert forall|i: int| 0 <= i < after.len() implies (#[trigger] after[i]).key != key by {
                assert(gs[i].key != key);
            }
            lemma_group_at(after, key, after.len() as int);
        }
    } else {
        if k < gs.len() {
            assert forall|i: int| 0 <= i < k implies (#[trigger] after[i]).key != key by {
                assert(after[i] == gs[i]);
            }
            lemma_group_at(after, key, k);
        } else {
            assert forall|i: int| 0 <= i < gs.len() implies (#[trigger] after[i]).key != key by {
                assert(after[i] == gs[i]);
            }
            if other == key {
                lemma_group_at(after, key, gs.len() as int);
            } else {
                lemma_group_at(after, key, after.len() as int);
            }
        }
    }
}

proof fn lemma_group_count(rows: Seq<SigRow>, n: nat, key: Seq<char>)
    requires
        n <= rows.len(),
    ensures
        ({
            let gs = grouped(rows, n);
            let k = group_at(gs, key);
            &&& k < gs.len() <==> rows_with(rows, key, n as int) > 0
            &&& k < gs.len() ==> gs[k].count == rows_with(rows, key, n as int)
        }),
    decreases n,
{
    if n > 0 {
        let m = (n - 1) as nat;
        lemma_group_count(rows, m, key);
        match file_of_track(rows[m as int].path@) {
            Some(other) => {
                lemma_with_track_at(grouped(rows, m), other, rows[m as int].sig, key);
            },
            None => {},
        }
    }
}

proof fn lemma_group_first(rows: Seq<SigRow>, n: nat, key: Seq<char>, a: int)
    requires
        0 <= a < n <= rows.len(),
        belongs(rows[a], key),
        forall|i: int| 0 <= i < a ==> !#[trigger] belongs(rows[i], key),
    ensures
        ({
            let gs = grouped(rows, n);
            let k = group_at(gs, key);
            k < gs.len() && gs[k].first == rows[a].sig
        }),
    decreases n,
{
    let m = (n - 1) as nat;
    if a == m {
        lemma_none_before(rows, key, a);
        lemma_group_count(rows, m, key);
    } else {
        lemma_group_first(rows, m, key, a);
    }
    match file_of_track(rows[m as int].path@) {
        Some(other) => {
            lemma_with_track_at(grouped(rows, m), other, rows[m as int].sig, key);
        },
        None => {},
    }
}

proof fn lemma_group_last(rows: Seq<SigRow>, n: nat, key: Seq<char>, a: int)
    requires
        0 <= a < n <= rows.len(),
        belongs(rows[a], key),
        forall|i: int| a < i < n ==> !#[trigger] belongs(rows[i], key),
    ensures
        ({
            let gs = grouped(rows, n);
            let k = group_at(gs, key);
            k < gs.len() && gs[k].last == rows[a].sig
        }),
    decreases n,
{
    let m = (n - 1) as nat;
    if a != m {
        assert(!belongs(rows[m as int], key));
        lemma_group_last(rows, m, key, a);
    }
    match file_of_track(rows[m as int].path@) {
        Some(other) => {
            lemma_with_track_at(grouped(rows, m), other, rows[m as int].sig, key);
        },
        None => {},
    }
}

proof fn lemma_some_row(rows: Seq<SigRow>, key: Seq<char>, n: int) -> (a: int)
    requires
        rows_with(rows, key, n) > 0,
    ensures
        0 <= a < n,
        belongs(rows[a], key),
    decreases n,
{
    if n > 0 && belongs(rows[n - 1], key) {
        n - 1
    } else {
        lemma_some_row(rows, key, n - 1)
    }
}

proof fn lemma_none_before(rows: Seq<SigRow>, key: Seq<char>, n: int)
    requires
        forall|i: int| 0 <= i < n ==> !#[trigger] belongs(rows[i], key),
    ensures
        rows_with(rows, key, n) == 0,
    decreases n,
{
    if n > 0 {
        assert(!belongs(rows[n - 1], key));
        lemma_none_before(rows, key, n - 1);
    }
}

/// A sheet or an image that could not be looked at is left alone. One that the library does not
/// know is read. A known one is unchanged exactly if it was read at this time and size: a sheet
/// by its first track in the library, an image by its last.
pub proof fn law_known_sheets_are_read_once(
    rows: Vec<SigRow>,
    f: VirtualScan,
    v: &mut VirtualScan,
    key: &str,
    sig: (i64, i64),
    disc: bool,
    r: Visit,
    a: int,
)
    requires
        call_ensures(VirtualScan::new, (&rows,), f),
        call_ensures(VirtualScan::visit, (v, key, Some(sig), disc), r),
        old(v).known@ == f.known@,
    ensures
        (forall|i: int| 0 <= i < rows@.len() ==> !#[trigger] belongs(rows@[i], key@)) ==> r
            == Visit::Rebuild,
        0 <= a < rows@.len() && belongs(rows@[a], key@) && !disc && (forall|i: int|
            0 <= i < a ==> !#[trigger] belongs(rows@[i], key@)) ==> (r == Visit::Unchanged <==> rows@[
            a
        ].sig == sig),
        0 <= a < rows@.len() && belongs(rows@[a], key@) && disc && (forall|i: int|
            a < i < rows@.len() ==> !#[trigger] belongs(rows@[i], key@)) ==> (r
            == Visit::Unchanged <==> rows@[a].sig == sig),
        r == Visit::Unchanged || r == Visit::Rebuild,
        final(v).known@ == old(v).known@,
        f.current@.len() == 0,
{
    let n = rows@.len();
    lemma_group_count(rows@, n, key@);
    if forall|i: int| 0 <= i < n ==> !#[trigger] belongs(rows@[i], key@) {
        lemma_none_before(rows@, key@, n as int);
    }
    if 0 <= a < n && belongs(rows@[a], key@) {
        if forall|i: int| 0 <= i < a ==> !#[trigger] belongs(rows@[i], key@) {
            lemma_group_first(rows@, n, key@, a);
        }
        if forall|i: int| a < i < n ==> !#[trigger] belongs(rows@[i], key@) {
            lemma_group_last(rows@, n, key@, a);
        }
    }
}

/// What could not be looked at is left alone, but counts as found, like everything that is
/// visited.
pub proof fn law_visited_is_found(
    v: &mut VirtualScan,
    key: &str,
    sig: Option<(i64, i64)>,
    disc: bool,
    r: Visit,
    k: int,
)
    requires
        call_ensures(VirtualScan::visit, (v, key, sig, disc), r),
    ensures
        r == Visit::Skip <==> sig is None,
        final(v).current@.len() == old(v).current@.len() + 1,
        final(v).current@.last()@ == key@,
        0 <= k < old(v).current@.len() ==> final(v).current@[k]@ == old(v).current@[k]@,
        final(v).known@ == old(v).known@,
{
    let a = strings(old(v).current@);
    let b = strings(final(v).current@);
    assert(b == a.push(key@));
    assert(b.len() == final(v).current@.len());
    assert(a.len() == old(v).current@.len());
    assert(b[b.len() - 1] == final(v).current@.last()@);
    if 0 <= k < old(v).current@.len() {
        assert(b[k] == a[k]);
        assert(b[k] == final(v).current@[k]@);
        assert(a[k] == old(v).current@[k]@);
    }
}

/// A sheet or an image has as many tracks in the library as rows lie in it.
pub proof fn law_known_tracks_are_counted(
    rows: Vec<SigRow>,
    f: VirtualScan,
    v: VirtualScan,
    key: &str,
    n: u64,
)
    requires
        call_ensures(VirtualScan::new, (&rows,), f),
        call_ensures(VirtualScan::count, (&v, key), n),
        v.known@ == f.known@,
    ensures
        n == rows_with(rows@, key@, rows@.len() as int),
{
    lemma_group_count(rows@, rows@.len(), key@);
}

proof fn lemma_missing(known: Seq<GroupView>, current: Seq<Seq<char>>, n: nat, key: Seq<char>)
    requires
        n <= known.len(),
    ensures
        missing(known, current, n).contains(key) <==> !current.contains(key) && exists|i: int|
            0 <= i < n && (#[trigger] known[i]).key == key,
    decreases n,
{
    if n > 0 {
        let m = (n - 1) as nat;
        lemma_missing(known, current, m, key);
        let before = missing(known, current, m);
        let all = missing(known, current, n);
        if !current.contains(known[m as int].key) {
            assert(all[before.len() as int] == known[m as int].key);
            if all.contains(key) && known[m as int].key != key {
                let i = choose|i: int| 0 <= i < all.len() && all[i] == key;
                assert(i < before.len());
                assert(before[i] == key);
            }
            if before.contains(key) {
                let i = choose|i: int| 0 <= i < before.len() && before[i] == key;
                assert(all[i] == key);
            }
        }
        if exists|i: int| 0 <= i < n && (#[trigger] known[i]).key == key {
            let i = choose|i: int| 0 <= i < n && (#[trigger] known[i]).key == key;
            if i < m {
                assert(exists|j: int| 0 <= j < m && (#[trigger] known[j]).key == key);
            }
        }
    }
}

/// The tracks of a sheet or an image are given up exactly if the library has some and it was not
/// found.
pub proof fn law_only_the_lost_are_given_up(
    rows: Vec<SigRow>,
    f: VirtualScan,
    v: VirtualScan,
    r: Vec<String>,
    key: Seq<char>,
)
    requires
        call_ensures(VirtualScan::new, (&rows,), f),
        call_ensures(VirtualScan::vanished, (&v,), r),
        v.known@ == f.known@,
    ensures
        strings(r@).contains(key) <==> !strings(v.current@).contains(key) && exists|i: int|
            0 <= i < rows@.len() && #[trigger] belongs(rows@[i], key),
{
    let known = group_views(v.known@);
    let n = rows@.len();
    lemma_missing(known, strings(v.current@), known.len(), key);
    lemma_group_count(rows@, n, key);
    lemma_group_at_is(known, key);
    let k = group_at(known, key);
    if k < known.len() {
        let a = lemma_some_row(rows@, key, n as int);
        assert(belongs(rows@[a], key));
        assert(known[k].key == key);
    } else {
        assert forall|i: int| 0 <= i < n implies !#[trigger] belongs(rows@[i], key) by {
            if belongs(rows@[i], key) {
                lemma_row_counts(rows@, key, n as int, i);
            }
        }
    }
}

proof fn lemma_row_counts(rows: Seq<SigRow>, key: Seq<char>, n: int, a: int)
    requires
        0 <= a < n,
        belongs(rows[a], key),
    ensures
        rows_with(rows, key, n) > 0,
    decreases n,
{
    if a < n - 1 {
        lemma_row_counts(rows, key, n - 1, a);
    }
}

/// The tracks of a sheet's files are added up.
pub proof fn law_tracks_of_a_sheet_add_up(
    a: CueSheet,
    b: CueSheet,
    last: CueFile,
    m: u64,
    n: u64,
)
    requires
        call_ensures(count_tracks, (&a,), m),
        call_ensures(count_tracks, (&b,), n),
        b.files@ == a.files@.push(last),
        sheet_tracks(b.files@) <= u64::MAX,
    ensures
        a.files@.len() == 0 ==> m == 0,
        n == m + last.tracks@.len(),
{
    assert(b.files@.drop_last() =~= a.files@);
}

/// What a scan knows at first is what the library holds.
pub proof fn law_scan_starts_from_the_library(rows: Vec<SigRow>, gs: Vec<Group>, f: VirtualScan)
    requires
        call_ensures(load_existing, (&rows,), gs),
        call_ensures(VirtualScan::new, (&rows,), f),
    ensures
        group_views(gs@) == group_views(f.known@),
        f.current@.len() == 0,
{
}

} // verus!
