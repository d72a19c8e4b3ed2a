//! Fuzzy search over the library.
use crate::model::{Album, Artist, Filter, Folder};
use crate::text::{chars_of, string_of, trim_of, trimmed};
use vstd::prelude::*;
use vstd::string::*;
use vstd::utf8::encode_utf8;

verus! {

/// A text to search in, and what it stands for.
pub struct Hay {
    pub id: i64,
    pub text: String,
}

impl AsRef<str> for Hay {
    fn as_ref(&self) -> (r: &str)
        ensures
            r@ == self.text@,
    {
        self.text.as_str()
    }
}

/// Queries are at most this long: a match scores at most 26 points per character and 10 more
/// for the first, and that has to fit in sixteen bits.
pub const MAX_QUERY: usize = 2520;

/// The score of a text for a query; none if it does not match.
pub uninterp spec fn fuzzy_score(query: Seq<char>, text: Seq<char>) -> Option<u32>;

pub open spec fn texts(hays: Seq<Hay>) -> Seq<Seq<char>> {
    hays.map_values(|h: Hay| h.text@)
}

/// Text `i` ranks before text `j`: it scores higher, or as high and comes first.
pub open spec fn ranks_before(query: Seq<char>, ts: Seq<Seq<char>>, i: int, j: int) -> bool {
    let a = fuzzy_score(query, ts[i])->0;
    let b = fuzzy_score(query, ts[j])->0;
    a > b || (a == b && i < j)
}

/// `idx` lists the texts that match, best first, equals in order.
pub open spec fn is_ranking(query: Seq<char>, ts: Seq<Seq<char>>, idx: Seq<int>) -> bool {
    &&& forall|k: int|
        0 <= k < idx.len() ==> 0 <= #[trigger] idx[k] < ts.len() && fuzzy_score(
            query,
            ts[idx[k]],
        ) is Some
    &&& forall|a: int, b: int|
        0 <= a < b < idx.len() ==> ranks_before(query, ts, #[trigger] idx[a], #[trigger] idx[b])
    &&& forall|i: int|
        0 <= i < ts.len() && (#[trigger] fuzzy_score(query, ts[i])) is Some ==> idx.contains(i)
}

/// The texts that match a query, best first.
pub open spec fn ranking(query: Seq<char>, ts: Seq<Seq<char>>) -> Seq<int> {
    choose|idx: Seq<int>| is_ranking(query, ts, idx)
}

/// The ranking of some hays is one: it lists all that match, and nothing else, best first.
pub open spec fn ranked(query: Seq<char>, hays: Seq<Hay>) -> bool {
    is_ranking(query, texts(hays), ranking(query, texts(hays)))
}

/// The matcher counts the bytes of a text in 32 bits, and multiplies them by the length of
/// the query.
pub open spec fn text_fits(text: Seq<char>) -> bool {
    &&& encode_utf8(text).len() <= u32::MAX
    &&& encode_utf8(text).len() * MAX_QUERY <= usize::MAX
}

/// Letters that may carry a mark, and their capitals. A query without any is compared without
/// regard to marks; one with such a letter may be compared with regard to them.
pub open spec fn is_marked(c: char) -> bool {
    let u = c as u32;
    ||| 0xc0 <= u <= 0x36f
    ||| 0x1d00 <= u <= 0x1ef1
    ||| 0x2071 <= u <= 0x2184
    ||| 0x2c62 <= u <= 0x2c7f
    ||| 0xa77d <= u <= 0xa7c6
}

/// Small letters that another letter stands for when case is ignored, such as the long s and
/// the final sigma.
pub open spec fn is_variant(c: char) -> bool {
    let u = c as u32;
    ||| u == 0xb5 || u == 0x17f || u == 0x345 || u == 0x3c2 || u == 0x3d0 || u == 0x3d1
    ||| u == 0x3d5 || u == 0x3d6 || u == 0x3f0 || u == 0x3f1 || u == 0x3f5
    ||| 0x13f8 <= u <= 0x13fd
    ||| 0x1c80 <= u <= 0x1c88
    ||| u == 0x1e9b || u == 0x1fbe
    ||| 0xab70 <= u <= 0xabbf
}

/// The letter that stands for a variant, and for its capital: its code point. Any other
/// character stands for itself.
pub open spec fn stand_in(c: char) -> u32 {
    let u = c as u32;
    if u == 0x53 || u == 0x17f {
        0x73
    } else if u == 0x1e60 || u == 0x1e9b {
        0x1e61
    } else if u == 0x392 || u == 0x3d0 {
        0x3b2
    } else if u == 0x395 || u == 0x3f5 {
        0x3b5
    } else if u == 0x398 || u == 0x3d1 || u == 0x3f4 {
        0x3b8
    } else if u == 0x399 || u == 0x345 || u == 0x1fbe {
        0x3b9
    } else if u == 0x39a || u == 0x3f0 {
        0x3ba
    } else if u == 0x39c || u == 0xb5 {
        0x3bc
    } else if u == 0x3a0 || u == 0x3d6 {
        0x3c0
    } else if u == 0x3a1 || u == 0x3f1 {
        0x3c1
    } else if u == 0x3a3 || u == 0x3c2 {
        0x3c3
    } else if u == 0x3a6 || u == 0x3d5 {
        0x3c6
    } else if u == 0x412 || u == 0x1c80 {
        0x432
    } else if u == 0x414 || u == 0x1c81 {
        0x434
    } else if u == 0x41e || u == 0x1c82 {
        0x43e
    } else if u == 0x421 || u == 0x1c83 {
        0x441
    } else if u == 0x422 || u == 0x1c84 || u == 0x1c85 {
        0x442
    } else if u == 0x42a || u == 0x1c86 {
        0x44a
    } else if u == 0x462 || u == 0x1c87 {
        0x463
    } else if u == 0xa64a || u == 0x1c88 {
        0xa64b
    } else if 0x13f8 <= u <= 0x13fd {
        (u - 8) as u32
    } else if 0xab70 <= u <= 0xabbf {
        (u - 0x97d0) as u32
    } else {
        u
    }
}

/// A query that may be compared with regard to marks has a letter that stands for a variant
/// in the text.
pub open spec fn clashes(query: Seq<char>, text: Seq<char>) -> bool {
    &&& exists|i: int| 0 <= i < query.len() && is_marked(#[trigger] query[i])
    &&& exists|i: int, j: int|
        #![trigger query[i], text[j]]
        0 <= i < query.len() && 0 <= j < text.len() && is_variant(text[j]) && stand_in(query[i])
            == stand_in(text[j])
}

/// The matcher takes this query on these texts.
pub open spec fn matchable(query: Seq<char>, hays: Seq<Hay>) -> bool {
    &&& query.len() <= MAX_QUERY
    &&& short(hays)
    &&& clash_free(query, hays)
}

/// The query clashes with none of the texts.
pub open spec fn clash_free(query: Seq<char>, hays: Seq<Hay>) -> bool {
    forall|i: int| 0 <= i < hays.len() ==> !clashes(query, (#[trigger] hays[i]).text@)
}

/// `nucleo`'s `Pattern::match_list`, for a pattern from `Pattern::parse` that ignores case
/// and normalises smartly: it scores every text, keeps those that match, and sorts them by
/// falling score without reordering equals. A score depends on the pattern and the text
/// alone.
///
/// What it cannot take: a text of more than 2^32 - 1 bytes, or one that the length of the
/// pattern multiplies beyond `usize`, can make it panic, and a pattern beyond [`MAX_QUERY`]
/// characters can overflow a score. It also asserts, where such checks are compiled in, that
/// the place where it first finds the start of a word of the pattern is one that it finds
/// again. That fails where the word is compared with regard to marks and the place holds a
/// variant of the letter, as the long s is one of `s` in a search for `sä`: the first look
/// takes the two for the same, the second does not.
#[verifier::external_body]
fn match_list(query: &str, hays: &Vec<Hay>) -> (r: Vec<(i64, u32)>)
    requires
        matchable(query@, hays@),
    ensures
        exists|idx: Seq<int>|
            #![trigger is_ranking(query@, texts(hays@), idx)]
            is_ranking(query@, texts(hays@), idx) && r@.len() == idx.len() && forall|k: int|
                0 <= k < idx.len() ==> #[trigger] r@[k] == (
                    hays@[idx[k]].id,
                    fuzzy_score(query@, hays@[idx[k]].text@)->0,
                ),
{
    let pat = nucleo::pattern::Pattern::parse(
        query,
        nucleo::pattern::CaseMatching::Ignore,
        nucleo::pattern::Normalization::Smart,
    );
    let mut matcher = nucleo::Matcher::new(nucleo::Config::DEFAULT);
    pat.match_list(hays.iter(), &mut matcher).into_iter().map(|(h, s)| (h.id, s)).collect()
}

/// Two rankings of the same texts are the same: the order of the results is fixed by the
/// scores alone.
pub proof fn law_ranking_is_unique(query: Seq<char>, ts: Seq<Seq<char>>, a: Seq<int>, b: Seq<int>)
    requires
        is_ranking(query, ts, a),
        is_ranking(query, ts, b),
    ensures
        a == b,
{
    assert forall|x: int| a.contains(x) <==> b.contains(x) by {
        if a.contains(x) {
            let k = choose|k: int| 0 <= k < a.len() && a[k] == x;
            assert(fuzzy_score(query, ts[a[k]]) is Some);
        }
        if b.contains(x) {
            let k = choose|k: int| 0 <= k < b.len() && b[k] == x;
            assert(fuzzy_score(query, ts[b[k]]) is Some);
        }
    }
    lemma_sorted_same(query, ts, a, b);
}

proof fn lemma_sorted_same(query: Seq<char>, ts: Seq<Seq<char>>, a: Seq<int>, b: Seq<int>)
    requires
        forall|i: int, j: int|
            0 <= i < j < a.len() ==> ranks_before(query, ts, #[trigger] a[i], #[trigger] a[j]),
        forall|i: int, j: int|
            0 <= i < j < b.len() ==> ranks_before(query, ts, #[trigger] b[i], #[trigger] b[j]),
        forall|x: int| #[trigger] a.contains(x) <==> b.contains(x),
    ensures
        a == b,
    decreases a.len(),
{
    if a.len() == 0 {
        if b.len() > 0 {
            assert(b.contains(b[0]));
            assert(a.contains(b[0]));
        }
        assert(a =~= b);
    } else {
        assert(a.contains(a[0]));
        assert(b.contains(a[0]));
        let p = choose|p: int| 0 <= p < b.len() && b[p] == a[0];
        assert(b.contains(b[0]));
        assert(a.contains(b[0]));
        let q = choose|q: int| 0 <= q < a.len() && a[q] == b[0];
        if p > 0 && q > 0 {
            assert(ranks_before(query, ts, b[0], b[p]));
            assert(ranks_before(query, ts, a[0], a[q]));
            assert(false);
        }
        assert(a[0] == b[0]);
        let a1 = a.skip(1);
        let b1 = b.skip(1);
        assert forall|x: int| #[trigger] a1.contains(x) <==> b1.contains(x) by {
            if a1.contains(x) {
                let k = choose|k: int| 0 <= k < a1.len() && a1[k] == x;
                assert(a[k + 1] == x);
                assert(a.contains(x));
                assert(b.contains(x));
                let m = choose|m: int| 0 <= m < b.len() && b[m] == x;
                assert(ranks_before(query, ts, a[0], a[k + 1]));
                assert(m != 0);
                assert(b1[m - 1] == x);
            }
            if b1.contains(x) {
                let k = choose|k: int| 0 <= k < b1.len() && b1[k] == x;
                assert(b[k + 1] == x);
                assert(b.contains(x));
                assert(a.contains(x));
                let m = choose|m: int| 0 <= m < a.len() && a[m] == x;
                assert(ranks_before(query, ts, b[0], b[k + 1]));
                assert(m != 0);
                assert(a1[m - 1] == x);
            }
        }
        assert forall|i: int, j: int| 0 <= i < j < a1.len() implies ranks_before(
            query,
            ts,
            #[trigger] a1[i],
            #[trigger] a1[j],
        ) by {
            assert(ranks_before(query, ts, a[i + 1], a[j + 1]));
        }
        assert forall|i: int, j: int| 0 <= i < j < b1.len() implies ranks_before(
            query,
            ts,
            #[trigger] b1[i],
            #[trigger] b1[j],
        ) by {
            assert(ranks_before(query, ts, b[i + 1], b[j + 1]));
        }
        lemma_sorted_same(query, ts, a1, b1);
        assert(a =~= seq![a[0]] + a1);
        assert(b =~= seq![b[0]] + b1);
    }
}

/// The first `limit` of a sequence, or all of it.
pub open spec fn at_most<T>(s: Seq<T>, limit: nat) -> Seq<T> {
    if s.len() <= limit {
        s
    } else {
        s.take(limit as int)
    }
}

/// No text is too long for the matcher.
pub open spec fn short(hays: Seq<Hay>) -> bool {
    forall|i: int| 0 <= i < hays.len() ==> text_fits((#[trigger] hays[i]).text@)
}

/// Whether a text is short enough to be searched.
pub fn searchable(text: &str) -> (b: bool)
    ensures
        b == text_fits(text@),
{
    let n: usize = text.as_bytes().len();
    n <= u32::MAX as usize && n as u64 * MAX_QUERY as u64 <= usize::MAX as u64
}

fn marked(c: char) -> (b: bool)
    ensures
        b == is_marked(c),
{
    let u: u32 = c as u32;
    (0xc0 <= u && u <= 0x36f) || (0x1d00 <= u && u <= 0x1ef1) || (0x2071 <= u && u <= 0x2184) || (
    0x2c62 <= u && u <= 0x2c7f) || (0xa77d <= u && u <= 0xa7c6)
}

fn variant(c: char) -> (b: bool)
    ensures
        b == is_variant(c),
{
    let u: u32 = c as u32;
    u == 0xb5 || u == 0x17f || u == 0x345 || u == 0x3c2 || u == 0x3d0 || u == 0x3d1 || u == 0x3d5
        || u == 0x3d6 || u == 0x3f0 || u == 0x3f1 || u == 0x3f5 || (0x13f8 <= u && u <= 0x13fd) || (
    0x1c80 <= u && u <= 0x1c88) || u == 0x1e9b || u == 0x1fbe || (0xab70 <= u && u <= 0xabbf)
}

fn letter_for(c: char) -> (l: u32)
    ensures
        l == stand_in(c),
{
    let u: u32 = c as u32;
    match u {
        0x53 | 0x17f => 0x73,
        0x1e60 | 0x1e9b => 0x1e61,
        0x392 | 0x3d0 => 0x3b2,
        0x395 | 0x3f5 => 0x3b5,
        0x398 | 0x3d1 | 0x3f4 => 0x3b8,
        0x399 | 0x345 | 0x1fbe => 0x3b9,
        0x39a | 0x3f0 => 0x3ba,
        0x39c | 0xb5 => 0x3bc,
        0x3a0 | 0x3d6 => 0x3c0,
        0x3a1 | 0x3f1 => 0x3c1,
        0x3a3 | 0x3c2 => 0x3c3,
        0x3a6 | 0x3d5 => 0x3c6,
        0x412 | 0x1c80 => 0x432,
        0x414 | 0x1c81 => 0x434,
        0x41e | 0x1c82 => 0x43e,
        0x421 | 0x1c83 => 0x441,
        0x422 | 0x1c84 | 0x1c85 => 0x442,
        0x42a | 0x1c86 => 0x44a,
        0x462 | 0x1c87 => 0x463,
        0xa64a | 0x1c88 => 0xa64b,
        _ => if 0x13f8 <= u && u <= 0x13fd {
            u - 8
        } else if 0xab70 <= u && u <= 0xabbf {
            u - 0x97d0
        } else {
            u
        },
    }
}

fn has_mark(q: &[char]) -> (b: bool)
    ensures
        b == exists|i: int| 0 <= i < q@.len() && is_marked(#[trigger] q@[i]),
{
    for i in 0..q.len()
        invariant
            forall|k: int| 0 <= k < i ==> !is_marked(#[trigger] q@[k]),
    {
        if marked(q[i]) {
            return true;
        }
    }
    false
}

/// Whether a letter of the query stands for a variant in the text.
fn meets_variant(q: &[char], text: &[char]) -> (b: bool)
    ensures
        b == exists|i: int, j: int|
            #![trigger q@[i], text@[j]]
            0 <= i < q@.len() && 0 <= j < text@.len() && is_variant(text@[j]) && stand_in(q@[i])
                == stand_in(text@[j]),
{
    for j in 0..text.len()
        invariant
            forall|i: int, k: int|
                #![trigger q@[i], text@[k]]
                0 <= i < q@.len() && 0 <= k < j && is_variant(text@[k]) ==> stand_in(q@[i])
                    != stand_in(text@[k]),
    {
        if variant(text[j]) {
            let l: u32 = letter_for(text[j]);
            for i in 0..q.len()
                invariant
                    j < text@.len(),
                    is_variant(text@[j as int]),
                    l == stand_in(text@[j as int]),
                    forall|k: int| 0 <= k < i ==> stand_in(#[trigger] q@[k]) != l,
            {
                if letter_for(q[i]) == l {
                    return true;
                }
            }
        }
    }
    false
}

/// Whether a query clashes with none of the texts.
fn no_clash(q: &[char], hays: &Vec<Hay>) -> (b: bool)
    ensures
        b == clash_free(q@, hays@),
{
    if !has_mark(q) {
        return true;
    }
    for k in 0..hays.len()
        invariant
            exists|i: int| 0 <= i < q@.len() && is_marked(#[trigger] q@[i]),
            forall|h: int| 0 <= h < k ==> !clashes(q@, (#[trigger] hays@[h]).text@),
    {
        let text = chars_of(hays[k].text.as_str());
        if meets_variant(q, text.as_slice()) {
            assert(clashes(q@, hays@[k as int].text@));
            return false;
        }
    }
    true
}

/// Whether the matcher takes a query on some texts.
pub fn can_match(hays: &Vec<Hay>, query: &str) -> (b: bool)
    ensures
        b == matchable(query@, hays@),
{
    let q = chars_of(query);
    if q.len() > MAX_QUERY {
        return false;
    }
    for k in 0..hays.len()
        invariant
            forall|h: int| 0 <= h < k ==> text_fits((#[trigger] hays@[h]).text@),
    {
        if !searchable(hays[k].text.as_str()) {
            return false;
        }
    }
    no_clash(q.as_slice(), hays)
}

/// What the first `limit` of some scored matches stand for.
pub fn best_ids(scored: &Vec<(i64, u32)>, limit: usize) -> (r: Vec<i64>)
    ensures
        r@ == at_most(scored@, limit as nat).map_values(|m: (i64, u32)| m.0),
{
    let n: usize = if scored.len() <= limit {
        scored.len()
    } else {
        limit
    };
    let mut r: Vec<i64> = Vec::new();
    for k in 0..n
        invariant
            n <= scored@.len(),
            r@ == scored@.take(k as int).map_values(|m: (i64, u32)| m.0),
    {
        r.push(scored[k].0);
        assert(r@ =~= scored@.take(k + 1).map_values(|m: (i64, u32)| m.0));
    }
    assert(scored@.take(n as int) =~= at_most(scored@, limit as nat));
    r
}

/// What the best `limit` matches of a query stand for, best first.
pub fn match_topn(hays: &Vec<Hay>, query: &str, limit: usize) -> (r: Vec<i64>)
    requires
        matchable(query@, hays@),
    ensures
        ranked(query@, hays@),
        r@ == at_most(ranking(query@, texts(hays@)), limit as nat).map_values(
            |i: int| hays@[i].id,
        ),
{
    let all = match_list(query, hays);
    let ghost idx = choose|idx: Seq<int>|
        #![trigger is_ranking(query@, texts(hays@), idx)]
        is_ranking(query@, texts(hays@), idx) && all@.len() == idx.len() && forall|k: int|
            0 <= k < idx.len() ==> #[trigger] all@[k] == (
                hays@[idx[k]].id,
                fuzzy_score(query@, hays@[idx[k]].text@)->0,
            );
    proof {
        law_ranking_is_unique(query@, texts(hays@), idx, ranking(query@, texts(hays@)));
    }
    let r = best_ids(&all, limit);
    assert(r@ =~= at_most(idx, limit as nat).map_values(|i: int| hays@[i].id));
    r
}

/// Hays whose ids are their places.
pub open spec fn numbered(hays: Seq<Hay>) -> bool {
    forall|i: int| 0 <= i < hays.len() ==> (#[trigger] hays[i]).id == i
}

/// Hays for the given texts, each known by its place.
pub fn hays_from(items: Vec<String>) -> (r: Vec<Hay>)
    requires
        items@.len() <= i64::MAX,
    ensures
        r@.len() == items@.len(),
        numbered(r@),
        forall|i: int| 0 <= i < r@.len() ==> (#[trigger] r@[i]).text == items@[i],
{
    let mut r: Vec<Hay> = Vec::new();
    for i in 0..items.len()
        invariant
            items@.len() <= i64::MAX,
            r@.len() == i,
            numbered(r@),
            forall|j: int| 0 <= j < i ==> (#[trigger] r@[j]).text == items@[j],
    {
        r.push(Hay { id: i as i64, text: items[i].clone() });
    }
    r
}

/// The text that an album is found by: its name and its artist.
pub open spec fn album_text(a: Album) -> Seq<char> {
    match a.album_artist {
        Some(aa) if aa@.len() > 0 => a.album@ + " "@ + aa@,
        _ => a.album@,
    }
}

/// The library's names, ready for searching.
pub struct SearchIndex {
    pub track_hays: Vec<Hay>,
    pub albums: Vec<Album>,
    pub album_hays: Vec<Hay>,
    pub artists: Vec<Artist>,
    pub artist_hays: Vec<Hay>,
    pub folders: Vec<Folder>,
    pub folder_hays: Vec<Hay>,
}

/// What to show of the tracks.
pub enum TrackHits {
    /// No tracks.
    Nothing,
    /// The first so many by title.
    ByTitle(usize),
    /// These, in this order.
    Ids(Vec<i64>),
}

/// What a query found.
pub struct Hits {
    pub tracks: TrackHits,
    pub albums: Vec<Album>,
    pub artists: Vec<Artist>,
    pub folders: Vec<Folder>,
}

pub open spec fn wants(filter: Filter, f: Filter) -> bool {
    filter == Filter::All || filter == f
}

/// The items that a query finds: all of them in order if it is empty, else the best
/// matches.
pub open spec fn found<T>(items: Seq<T>, ts: Seq<Seq<char>>, q: Seq<char>, limit: nat) -> Seq<T> {
    if q.len() == 0 {
        at_most(items, limit)
    } else {
        at_most(ranking(q, ts), limit).map_values(|i: int| items[i])
    }
}

fn first_items<T: Clone>(items: &Vec<T>, limit: usize) -> (r: Vec<T>)
    requires
        forall|a: T, b: T| #[trigger] cloned(a, b) ==> a == b,
    ensures
        r@ == at_most(items@, limit as nat),
{
    let n: usize = if items.len() <= limit {
        items.len()
    } else {
        limit
    };
    let mut r: Vec<T> = Vec::new();
    for i in 0..n
        invariant
            n <= items@.len(),
            forall|a: T, b: T| #[trigger] cloned(a, b) ==> a == b,
            r@ == items@.take(i as int),
    {
        let c = items[i].clone();
        assert(cloned(items@[i as int], c));
        r.push(c);
        assert(r@ =~= items@.take(i + 1));
    }
    assert(r@ =~= at_most(items@, limit as nat));
    r
}

/// The items at some places, in that order; a place outside is passed over.
pub open spec fn picked<T>(items: Seq<T>, ids: Seq<i64>) -> Seq<T>
    decreases ids.len(),
{
    if ids.len() == 0 {
        Seq::empty()
    } else {
        let rest = picked(items, ids.drop_last());
        if 0 <= ids.last() < items.len() {
            rest.push(items[ids.last() as int])
        } else {
            rest
        }
    }
}

proof fn lemma_picked_inside<T>(items: Seq<T>, ids: Seq<i64>)
    requires
        forall|k: int| 0 <= k < ids.len() ==> 0 <= #[trigger] ids[k] < items.len(),
    ensures
        picked(items, ids) == ids.map_values(|i: i64| items[i as int]),
    decreases ids.len(),
{
    if ids.len() > 0 {
        let front = ids.drop_last();
        assert forall|k: int| 0 <= k < front.len() implies 0 <= #[trigger] front[k] < items.len() by {
            assert(front[k] == ids[k]);
        }
        lemma_picked_inside(items, front);
        assert(0 <= ids[ids.len() - 1] < items.len());
    }
    assert(picked(items, ids) =~= ids.map_values(|i: i64| items[i as int]));
}

/// Copies the items at some places.
pub fn pick_items<T: Clone>(items: &Vec<T>, ids: &Vec<i64>) -> (r: Vec<T>)
    requires
        forall|a: T, b: T| #[trigger] cloned(a, b) ==> a == b,
    ensures
        r@ == picked(items@, ids@),
{
    let mut r: Vec<T> = Vec::new();
    for k in 0..ids.len()
        invariant
            forall|a: T, b: T| #[trigger] cloned(a, b) ==> a == b,
            r@ == picked(items@, ids@.take(k as int)),
    {
        assert(ids@.take(k + 1).drop_last() =~= ids@.take(k as int));
        let id: i64 = ids[k];
        if id >= 0 && (id as u64) < items.len() as u64 {
            let c = items[id as usize].clone();
            assert(cloned(items@[id as int], c));
            r.push(c);
        }
    }
    assert(ids@.take(ids@.len() as int) =~= ids@);
    r
}

fn matched_items<T: Clone>(items: &Vec<T>, hays: &Vec<Hay>, q: &str, limit: usize) -> (r: Vec<T>)
    requires
        forall|a: T, b: T| #[trigger] cloned(a, b) ==> a == b,
        matchable(q@, hays@),
        numbered(hays@),
        items@.len() == hays@.len(),
    ensures
        ranked(q@, hays@),
        r@ == at_most(ranking(q@, texts(hays@)), limit as nat).map_values(|i: int| items@[i]),
{
    let ids = match_topn(hays, q, limit);
    let ghost all = ranking(q@, texts(hays@));
    let ghost top = at_most(all, limit as nat);
    assert forall|k: int| 0 <= k < ids@.len() implies #[trigger] ids@[k] == top[k] && 0 <= top[k]
        < items@.len() by {
        assert(0 <= all[k] < texts(hays@).len());
        assert(hays@[all[k]].id == all[k]);
    }
    proof {
        lemma_picked_inside(items@, ids@);
    }
    let r = pick_items(items, &ids);
    assert(r@ =~= top.map_values(|i: int| items@[i]));
    r
}

impl SearchIndex {
    /// Every item has a hay, under its place, with its text.
    pub open spec fn wf(self) -> bool {
        &&& short(self.track_hays@)
        &&& short(self.album_hays@) && numbered(self.album_hays@) && self.album_hays@.len()
            == self.albums@.len()
        &&& short(self.artist_hays@) && numbered(self.artist_hays@) && self.artist_hays@.len()
            == self.artists@.len()
        &&& short(self.folder_hays@) && numbered(self.folder_hays@) && self.folder_hays@.len()
            == self.folders@.len()
        &&& forall|i: int|
            0 <= i < self.albums@.len() ==> (#[trigger] self.album_hays@[i]).text@ == album_text(
                self.albums@[i],
            )
        &&& forall|i: int|
            0 <= i < self.artists@.len() ==> (#[trigger] self.artist_hays@[i]).text
                == self.artists@[i].name
        &&& forall|i: int|
            0 <= i < self.folders@.len() ==> (#[trigger] self.folder_hays@[i]).text
                == self.folders@[i].path
    }

    /// An index of the given names.
    pub fn build(
        track_hays: Vec<Hay>,
        albums: Vec<Album>,
        artists: Vec<Artist>,
        folders: Vec<Folder>,
    ) -> (r: Self)
        requires
            short(track_hays@),
            albums@.len() <= i64::MAX,
            artists@.len() <= i64::MAX,
            folders@.len() <= i64::MAX,
            forall|i: int|
                0 <= i < albums@.len() ==> text_fits(album_text(#[trigger] albums@[i])),
            forall|i: int|
                0 <= i < artists@.len() ==> text_fits((#[trigger] artists@[i]).name@),
            forall|i: int|
                0 <= i < folders@.len() ==> text_fits((#[trigger] folders@[i]).path@),
        ensures
            r.wf(),
            r.track_hays == track_hays,
            r.albums == albums,
            r.artists == artists,
            r.folders == folders,
    {
        let mut names: Vec<String> = Vec::new();
        for i in 0..albums.len()
            invariant
                names@.len() == i,
                forall|j: int| 0 <= j < i ==> (#[trigger] names@[j])@ == album_text(albums@[j]),
        {
            let a = &albums[i];
            let mut s = a.album.clone();
            if let Some(aa) = &a.album_artist {
                if !aa.as_str().is_empty() {
                    s.append(" ");
                    s.append(aa.as_str());
                }
            }
            assert(s@ =~= album_text(albums@[i as int]));
            names.push(s);
        }
        let album_hays = hays_from(names);
        let mut anames: Vec<String> = Vec::new();
        for i in 0..artists.len()
            invariant
                anames@.len() == i,
                forall|j: int| 0 <= j < i ==> (#[trigger] anames@[j]) == artists@[j].name,
        {
            anames.push(artists[i].name.clone());
        }
        let artist_hays = hays_from(anames);
        let mut paths: Vec<String> = Vec::new();
        for i in 0..folders.len()
            invariant
                paths@.len() == i,
                forall|j: int| 0 <= j < i ==> (#[trigger] paths@[j]) == folders@[j].path,
        {
            paths.push(folders[i].path.clone());
        }
        let folder_hays = hays_from(paths);
        let r = SearchIndex {
            track_hays,
            albums,
            album_hays,
            artists,
            artist_hays,
            folders,
            folder_hays,
        };
        assert forall|i: int| 0 <= i < r.album_hays@.len() implies text_fits(
            (#[trigger] r.album_hays@[i]).text@,
        ) by {
            assert(r.album_hays@[i].text == names@[i]);
            assert(text_fits(album_text(albums@[i])));
        }
        r
    }

    /// The matcher takes the query on the texts that it would be matched against.
    pub open spec fn takes(self, query: Seq<char>, filter: Filter) -> bool {
        let q = trimmed(query);
        &&& q.len() <= MAX_QUERY
        &&& q.len() > 0 && wants(filter, Filter::Tracks) ==> clash_free(q, self.track_hays@)
        &&& q.len() > 0 && wants(filter, Filter::Albums) ==> clash_free(q, self.album_hays@)
        &&& q.len() > 0 && wants(filter, Filter::Artists) ==> clash_free(q, self.artist_hays@)
        &&& q.len() > 0 && filter == Filter::All ==> clash_free(q, self.folder_hays@)
    }

    /// Whether a query can be searched for.
    pub fn can_query(&self, query: &str, filter: Filter) -> (b: bool)
        ensures
            b == self.takes(query@, filter),
    {
        let chars = chars_of(query);
        let q = trim_of(chars.as_slice());
        if q.len() > MAX_QUERY {
            return false;
        }
        if q.len() == 0 {
            return true;
        }
        let all = filter == Filter::All;
        (!(all || filter == Filter::Tracks) || no_clash(q, &self.track_hays)) && (!(all || filter
            == Filter::Albums) || no_clash(q, &self.album_hays)) && (!(all || filter
            == Filter::Artists) || no_clash(q, &self.artist_hays)) && (!all || no_clash(
            q,
            &self.folder_hays,
        ))
    }

    /// Searches. An empty query lists everything in order; otherwise each kind is ranked by
    /// how well it matches. Folders are shown only if all kinds are.
    pub fn query(&self, query: &str, filter: Filter, limit: usize) -> (h: Hits)
        requires
            self.wf(),
            self.takes(query@, filter),
        ensures
            ({
                let q = trimmed(query@);
                &&& match h.tracks {
                    TrackHits::Nothing => !wants(filter, Filter::Tracks),
                    TrackHits::ByTitle(n) => wants(filter, Filter::Tracks) && q.len() == 0 && n
                        == limit,
                    TrackHits::Ids(ids) => wants(filter, Filter::Tracks) && q.len() > 0 && ids@
                        == at_most(ranking(q, texts(self.track_hays@)), limit as nat).map_values(
                        |i: int| self.track_hays@[i].id,
                    ),
                }
                &&& q.len() > 0 && wants(filter, Filter::Tracks) ==> ranked(q, self.track_hays@)
                &&& q.len() > 0 && wants(filter, Filter::Albums) ==> ranked(q, self.album_hays@)
                &&& q.len() > 0 && wants(filter, Filter::Artists) ==> ranked(q, self.artist_hays@)
                &&& q.len() > 0 && filter == Filter::All ==> ranked(q, self.folder_hays@)
                &&& h.albums@ == (if wants(filter, Filter::Albums) {
                    found(self.albums@, texts(self.album_hays@), q, limit as nat)
                } else {
                    Seq::empty()
                })
                &&& h.artists@ == (if wants(filter, Filter::Artists) {
                    found(self.artists@, texts(self.artist_hays@), q, limit as nat)
                } else {
                    Seq::empty()
                })
                &&& h.folders@ == (if filter == Filter::All {
                    found(self.folders@, texts(self.folder_hays@), q, limit as nat)
                } else {
                    Seq::empty()
                })
            }),
    {
        let chars = chars_of(query);
        let q = string_of(trim_of(chars.as_slice()));
        let all = filter == Filter::All;
        let want_tracks = all || filter == Filter::Tracks;
        let want_albums = all || filter == Filter::Albums;
        let want_artists = all || filter == Filter::Artists;
        let mut h = Hits {
            tracks: TrackHits::Nothing,
            albums: Vec::new(),
            artists: Vec::new(),
            folders: Vec::new(),
        };
        if q.as_str().is_empty() {
            if want_tracks {
                h.tracks = TrackHits::ByTitle(limit);
            }
            if want_albums {
                h.albums = first_items(&self.albums, limit);
            }
            if want_artists {
                h.artists = first_items(&self.artists, limit);
            }
            if all {
                h.folders = first_items(&self.folders, limit);
            }
            return h;
        }
        if want_tracks {
            h.tracks = TrackHits::Ids(match_topn(&self.track_hays, q.as_str(), limit));
        }
        if want_albums {
            h.albums = matched_items(&self.albums, &self.album_hays, q.as_str(), limit);
        }
        if want_artists {
            h.artists = matched_items(&self.artists, &self.artist_hays, q.as_str(), limit);
        }
        if all {
            h.folders = matched_items(&self.folders, &self.folder_hays, q.as_str(), limit);
        }
        h
    }
}

/// A query never shows more of a kind than it was allowed to.
pub proof fn law_limit_is_kept<T>(items: Seq<T>, ts: Seq<Seq<char>>, q: Seq<char>, limit: nat)
    ensures
        found(items, ts, q, limit).len() <= limit,
{
}

/// `at` lists places in `ts`, best first: their texts match, of two of them the one that scores
/// higher stands first, or the earlier one if both score the same; there are at most `limit`,
/// and a text that matches is left out only if there is no room and all that are listed stand
/// before it.
pub open spec fn best_places(at: Seq<int>, ts: Seq<Seq<char>>, q: Seq<char>, limit: nat) -> bool {
    &&& at.len() <= limit
    &&& forall|k: int|
        0 <= k < at.len() ==> 0 <= #[trigger] at[k] < ts.len() && fuzzy_score(
            q,
            ts[at[k]],
        ) is Some
    &&& forall|j: int, k: int|
        0 <= j < k < at.len() ==> {
            let a = fuzzy_score(q, ts[#[trigger] at[j]])->0;
            let b = fuzzy_score(q, ts[#[trigger] at[k]])->0;
            a > b || a == b && at[j] < at[k]
        }
    &&& forall|i: int|
        0 <= i < ts.len() && (#[trigger] fuzzy_score(q, ts[i])) is Some && !at.contains(i) ==> {
            &&& at.len() == limit
            &&& forall|k: int|
                0 <= k < at.len() ==> {
                    let a = fuzzy_score(q, ts[#[trigger] at[k]])->0;
                    let b = fuzzy_score(q, ts[i])->0;
                    a > b || a == b && at[k] < i
                }
        }
}

/// The items at the best places, in that order.
pub open spec fn best_first<T>(
    r: Seq<T>,
    items: Seq<T>,
    ts: Seq<Seq<char>>,
    q: Seq<char>,
    limit: nat,
) -> bool {
    exists|at: Seq<int>|
        #[trigger] best_places(at, ts, q, limit) && r.len() == at.len() && forall|k: int|
            0 <= k < r.len() ==> #[trigger] r[k] == items[at[k]]
}

proof fn lemma_best_places(ts: Seq<Seq<char>>, q: Seq<char>, limit: nat, rank: Seq<int>)
    requires
        is_ranking(q, ts, rank),
    ensures
        best_places(at_most(rank, limit), ts, q, limit),
{
    let at = at_most(rank, limit);
    assert forall|j: int, k: int| 0 <= j < k < at.len() implies {
        let a = fuzzy_score(q, ts[#[trigger] at[j]])->0;
        let b = fuzzy_score(q, ts[#[trigger] at[k]])->0;
        a > b || a == b && at[j] < at[k]
    } by {
        assert(ranks_before(q, ts, rank[j], rank[k]));
    }
    assert forall|k: int| 0 <= k < at.len() implies 0 <= #[trigger] at[k] < ts.len()
        && fuzzy_score(q, ts[at[k]]) is Some by {
        assert(at[k] == rank[k]);
    }
    assert forall|i: int|
        0 <= i < ts.len() && (#[trigger] fuzzy_score(q, ts[i])) is Some && !at.contains(i) implies {
        &&& at.len() == limit
        &&& forall|k: int|
            0 <= k < at.len() ==> {
                let a = fuzzy_score(q, ts[#[trigger] at[k]])->0;
                let b = fuzzy_score(q, ts[i])->0;
                a > b || a == b && at[k] < i
            }
    } by {
        assert(rank.contains(i));
        let m = choose|m: int| 0 <= m < rank.len() && rank[m] == i;
        if rank.len() <= limit || m < limit {
            assert(at[m] == i);
        }
        assert forall|k: int| 0 <= k < at.len() implies {
            let a = fuzzy_score(q, ts[#[trigger] at[k]])->0;
            let b = fuzzy_score(q, ts[i])->0;
            a > b || a == b && at[k] < i
        } by {
            assert(at[k] == rank[k]);
            assert(ranks_before(q, ts, rank[k], rank[m]));
        }
    }
}

proof fn lemma_best_first<T>(
    r: Seq<T>,
    items: Seq<T>,
    ts: Seq<Seq<char>>,
    q: Seq<char>,
    limit: nat,
)
    requires
        is_ranking(q, ts, ranking(q, ts)),
        r == at_most(ranking(q, ts), limit).map_values(|i: int| items[i]),
    ensures
        best_first(r, items, ts, q, limit),
{
    let at = at_most(ranking(q, ts), limit);
    lemma_best_places(ts, q, limit, ranking(q, ts));
    assert(best_places(at, ts, q, limit));
    assert forall|k: int| 0 <= k < r.len() implies #[trigger] r[k] == items[at[k]] by {}
}

/// The best matches come first: each kind that is asked for is listed by falling score of its
/// text for the query, an album by its name and its artist, an artist by its name, a folder by
/// its path; what is left out scores no higher than what is shown. Kinds that are not asked
/// for are not shown.
pub proof fn law_best_matches_come_first(
    ix: SearchIndex,
    query: &str,
    filter: Filter,
    limit: usize,
    h: Hits,
)
    requires
        call_ensures(SearchIndex::query, (&ix, query, filter, limit), h),
        ix.wf(),
        ix.takes(query@, filter),
        trimmed(query@).len() > 0,
    ensures
        filter == Filter::All || filter == Filter::Albums ==> best_first(
            h.albums@,
            ix.albums@,
            ix.albums@.map_values(
                |a: Album|
                    match a.album_artist {
                        Some(by) => if by@.len() > 0 {
                            a.album@ + seq![' '] + by@
                        } else {
                            a.album@
                        },
                        None => a.album@,
                    },
            ),
            trimmed(query@),
            limit as nat,
        ),
        filter == Filter::All || filter == Filter::Artists ==> best_first(
            h.artists@,
            ix.artists@,
            ix.artists@.map_values(|a: Artist| a.name@),
            trimmed(query@),
            limit as nat,
        ),
        filter == Filter::All ==> best_first(
            h.folders@,
            ix.folders@,
            ix.folders@.map_values(|f: Folder| f.path@),
            trimmed(query@),
            limit as nat,
        ),
        filter == Filter::All || filter == Filter::Tracks ==> (h.tracks matches TrackHits::Ids(ids)
            && best_first(
            ids@,
            ix.track_hays@.map_values(|t: Hay| t.id),
            ix.track_hays@.map_values(|t: Hay| t.text@),
            trimmed(query@),
            limit as nat,
        )),
        filter != Filter::All && filter != Filter::Albums ==> h.albums@.len() == 0,
        filter != Filter::All && filter != Filter::Artists ==> h.artists@.len() == 0,
        filter != Filter::All ==> h.folders@.len() == 0,
        filter != Filter::All && filter != Filter::Tracks ==> h.tracks is Nothing,
{
    let q = trimmed(query@);
    let n = limit as nat;
    reveal_strlit(" ");
    assert(" "@ =~= seq![' ']);
    if filter == Filter::All || filter == Filter::Albums {
        let ts = ix.albums@.map_values(
            |a: Album|
                match a.album_artist {
                    Some(by) => if by@.len() > 0 {
                        a.album@ + seq![' '] + by@
                    } else {
                        a.album@
                    },
                    None => a.album@,
                },
        );
        assert forall|i: int| 0 <= i < ts.len() implies ts[i] == texts(ix.album_hays@)[i] by {
            assert(ix.album_hays@[i].text@ == album_text(ix.albums@[i]));
        }
        assert(ts =~= texts(ix.album_hays@));
        lemma_best_first(h.albums@, ix.albums@, ts, q, n);
    }
    if filter == Filter::All || filter == Filter::Artists {
        let ts = ix.artists@.map_values(|a: Artist| a.name@);
        assert forall|i: int| 0 <= i < ts.len() implies ts[i] == texts(ix.artist_hays@)[i] by {
            assert(ix.artist_hays@[i].text == ix.artists@[i].name);
        }
        assert(ts =~= texts(ix.artist_hays@));
        lemma_best_first(h.artists@, ix.artists@, ts, q, n);
    }
    if filter == Filter::All {
        let ts = ix.folders@.map_values(|f: Folder| f.path@);
        assert forall|i: int| 0 <= i < ts.len() implies ts[i] == texts(ix.folder_hays@)[i] by {
            assert(ix.folder_hays@[i].text == ix.folders@[i].path);
        }
        assert(ts =~= texts(ix.folder_hays@));
        lemma_best_first(h.folders@, ix.folders@, ts, q, n);
    }
    if filter == Filter::All || filter == Filter::Tracks {
        let ts = ix.track_hays@.map_values(|t: Hay| t.text@);
        let ids = ix.track_hays@.map_values(|t: Hay| t.id);
        assert(ts =~= texts(ix.track_hays@));
        let shown = h.tracks->Ids_0@;
        let rank = ranking(q, ts);
        lemma_best_places(ts, q, n, rank);
        let at = at_most(rank, n);
        assert forall|k: int| 0 <= k < at.len() implies ids[#[trigger] at[k]]
            == ix.track_hays@[at[k]].id by {}
        assert(shown =~= at.map_values(|i: int| ids[i]));
        lemma_best_first(shown, ids, ts, q, n);
    }
}

/// Of two items of which a query shows the one that scores lower, it shows the other before it.
pub proof fn law_higher_score_stands_first<T>(
    r: Seq<T>,
    items: Seq<T>,
    ts: Seq<Seq<char>>,
    q: Seq<char>,
    limit: nat,
    i: int,
    j: int,
)
    requires
        best_first(r, items, ts, q, limit),
        items.len() == ts.len(),
        0 <= i < items.len(),
        0 <= j < items.len(),
        fuzzy_score(q, ts[i]) is Some,
        fuzzy_score(q, ts[j]) is Some,
        fuzzy_score(q, ts[i])->0 > fuzzy_score(q, ts[j])->0,
        r.contains(items[j]),
        forall|k: int| 0 <= k < items.len() && k != j ==> #[trigger] items[k] != items[j],
    ensures
        exists|a: int, b: int|
            0 <= a < b < r.len() && #[trigger] r[a] == items[i] && #[trigger] r[b] == items[j],
{
    let at = choose|at: Seq<int>|
        #[trigger] best_places(at, ts, q, limit) && r.len() == at.len() && forall|k: int|
            0 <= k < r.len() ==> #[trigger] r[k] == items[at[k]];
    let b = choose|b: int| 0 <= b < r.len() && r[b] == items[j];
    assert(items[at[b]] == items[j]);
    assert(at[b] == j);
    if !at.contains(i) {
        assert(false);
    }
    let a = choose|a: int| 0 <= a < at.len() && at[a] == i;
    assert(r[a] == items[i]);
    if a >= b {
        assert(a != b);
        assert(fuzzy_score(q, ts[at[b]])->0 >= fuzzy_score(q, ts[at[a]])->0);
    }
}

/// An empty query lists the first of everything that is asked for, in the order of the index;
/// the tracks are left to the caller, by title.
pub proof fn law_empty_query_lists_in_order(
    ix: SearchIndex,
    query: &str,
    filter: Filter,
    limit: usize,
    h: Hits,
    k: int,
)
    requires
        call_ensures(SearchIndex::query, (&ix, query, filter, limit), h),
        ix.wf(),
        trimmed(query@).len() == 0,
    ensures
        filter == Filter::All || filter == Filter::Albums ==> {
            &&& h.albums@.len() <= limit && h.albums@.len() <= ix.albums@.len()
            &&& h.albums@.len() == limit || h.albums@.len() == ix.albums@.len()
            &&& 0 <= k < h.albums@.len() ==> h.albums@[k] == ix.albums@[k]
        },
        filter == Filter::All || filter == Filter::Artists ==> {
            &&& h.artists@.len() <= limit && h.artists@.len() <= ix.artists@.len()
            &&& h.artists@.len() == limit || h.artists@.len() == ix.artists@.len()
            &&& 0 <= k < h.artists@.len() ==> h.artists@[k] == ix.artists@[k]
        },
        filter == Filter::All ==> {
            &&& h.folders@.len() <= limit && h.folders@.len() <= ix.folders@.len()
            &&& h.folders@.len() == limit || h.folders@.len() == ix.folders@.len()
            &&& 0 <= k < h.folders@.len() ==> h.folders@[k] == ix.folders@[k]
        },
        filter == Filter::All || filter == Filter::Tracks ==> h.tracks == TrackHits::ByTitle(limit),
        filter != Filter::All && filter != Filter::Albums ==> h.albums@.len() == 0,
        filter != Filter::All && filter != Filter::Artists ==> h.artists@.len() == 0,
        filter != Filter::All ==> h.folders@.len() == 0,
        filter != Filter::All && filter != Filter::Tracks ==> h.tracks is Nothing,
{
}

/// The ids of the best matches come best first, at most so many, and the items at given places
/// are picked in the order of the places.
pub proof fn law_ids_come_best_first(hays: Vec<Hay>, query: &str, limit: usize, r: Vec<i64>)
    requires
        call_ensures(match_topn, (&hays, query, limit), r),
        matchable(query@, hays@),
    ensures
        best_first(
            r@,
            hays@.map_values(|h: Hay| h.id),
            hays@.map_values(|h: Hay| h.text@),
            query@,
            limit as nat,
        ),
{
    let ts = hays@.map_values(|h: Hay| h.text@);
    let ids = hays@.map_values(|h: Hay| h.id);
    assert(ts =~= texts(hays@));
    lemma_best_places(ts, query@, limit as nat, ranking(query@, ts));
    let at = at_most(ranking(query@, ts), limit as nat);
    assert forall|k: int| 0 <= k < at.len() implies ids[#[trigger] at[k]] == hays@[at[k]].id by {}
    assert(r@ =~= at.map_values(|i: int| ids[i]));
    lemma_best_first(r@, ids, ts, query@, limit as nat);
}

/// Matches that were scored are cut to the first so many, and named by their ids.
pub proof fn law_best_ids_are_the_first(scored: Vec<(i64, u32)>, limit: usize, r: Vec<i64>, k: int)
    requires
        call_ensures(best_ids, (&scored, limit), r),
    ensures
        r@.len() <= limit && r@.len() <= scored@.len(),
        r@.len() == limit || r@.len() == scored@.len(),
        0 <= k < r@.len() ==> r@[k] == scored@[k].0,
{
}

/// Every text gets a hay, in order, known by its place.
pub proof fn law_hays_keep_the_order(items: Vec<String>, r: Vec<Hay>, k: int)
    requires
        call_ensures(hays_from, (items,), r),
        items@.len() <= i64::MAX,
        0 <= k < items@.len(),
    ensures
        r@.len() == items@.len(),
        r@[k].id == k,
        r@[k].text == items@[k],
{
}

/// An index keeps what it was built from, and every album, artist and folder is found under its
/// place by its own text.
pub proof fn law_index_knows_every_item(
    track_hays: Vec<Hay>,
    albums: Vec<Album>,
    artists: Vec<Artist>,
    folders: Vec<Folder>,
    ix: SearchIndex,
    k: int,
)
    requires
        call_ensures(SearchIndex::build, (track_hays, albums, artists, folders), ix),
        0 <= k,
    ensures
        ix.track_hays == track_hays,
        ix.albums == albums,
        ix.artists == artists,
        ix.folders == folders,
        ix.album_hays@.len() == albums@.len(),
        ix.artist_hays@.len() == artists@.len(),
        ix.folder_hays@.len() == folders@.len(),
        k < albums@.len() ==> {
            &&& ix.album_hays@[k].id == k
            &&& albums@[k].album_artist is None ==> ix.album_hays@[k].text@ == albums@[k].album@
            &&& albums@[k].album_artist matches Some(by) ==> {
                &&& by@.len() == 0 ==> ix.album_hays@[k].text@ == albums@[k].album@
                &&& by@.len() > 0 ==> ix.album_hays@[k].text@ == albums@[k].album@ + seq![' ']
                    + by@
            }
        },
        k < artists@.len() ==> ix.artist_hays@[k].id == k && ix.artist_hays@[k].text
            == artists@[k].name,
        k < folders@.len() ==> ix.folder_hays@[k].id == k && ix.folder_hays@[k].text
            == folders@[k].path,
{
    reveal_strlit(" ");
    assert(" "@ =~= seq![' ']);
    if k < albums@.len() {
        assert(ix.album_hays@[k].text@ == album_text(ix.albums@[k]));
    }
}

/// Items are picked by their places, in the order of the places.
pub proof fn law_items_are_picked_in_order<T: Clone>(
    items: Vec<T>,
    ids: Vec<i64>,
    r: Vec<T>,
    k: int,
)
    requires
        call_ensures(pick_items::<T>, (&items, &ids), r),
        forall|i: int| 0 <= i < ids@.len() ==> 0 <= #[trigger] ids@[i] < items@.len(),
        0 <= k < ids@.len(),
    ensures
        r@.len() == ids@.len(),
        r@[k] == items@[ids@[k] as int],
{
    lemma_picked_inside(items@, ids@);
}

/// A query without letters that may carry marks can always be searched for, if it and the texts
/// are not too long; one of more than two thousand five hundred and twenty characters never.
pub proof fn law_plain_queries_can_be_searched_for(
    hays: Vec<Hay>,
    query: &str,
    b: bool,
    text: &str,
    fits: bool,
)
    requires
        call_ensures(can_match, (&hays, query), b),
        call_ensures(searchable, (text,), fits),
    ensures
        query@.len() > 2520 ==> !b,
        query@.len() <= 2520 && (forall|i: int|
            0 <= i < query@.len() ==> (#[trigger] query@[i]) as u32 <= 0x7f) && (forall|i: int|
            0 <= i < hays@.len() ==> encode_utf8((#[trigger] hays@[i]).text@).len() * 2520
                <= u32::MAX) ==> b,
        encode_utf8(text@).len() > u32::MAX ==> !fits,
        encode_utf8(text@).len() * 2520 <= u32::MAX ==> fits,
{
    if query@.len() <= 2520 && (forall|i: int|
        0 <= i < query@.len() ==> (#[trigger] query@[i]) as u32 <= 0x7f) && (forall|i: int|
        0 <= i < hays@.len() ==> encode_utf8((#[trigger] hays@[i]).text@).len() * 2520
            <= u32::MAX) {
        assert forall|i: int| 0 <= i < hays@.len() implies !clashes(
            query@,
            (#[trigger] hays@[i]).text@,
        ) by {
            assert forall|j: int| 0 <= j < query@.len() implies !is_marked(#[trigger] query@[j]) by {
                assert(query@[j] as u32 <= 0x7f);
            }
        }
        assert forall|i: int| 0 <= i < hays@.len() implies text_fits(
            (#[trigger] hays@[i]).text@,
        ) by {
            assert(encode_utf8(hays@[i].text@).len() * 2520 <= u32::MAX);
        }
    }
}

/// An index takes a query without letters that may carry marks, whatever it is asked for, if the
/// query is not too long.
pub proof fn law_plain_queries_are_taken(ix: SearchIndex, query: &str, filter: Filter, b: bool)
    requires
        call_ensures(SearchIndex::can_query, (&ix, query, filter), b),
        ix.wf(),
    ensures
        trimmed(query@).len() > 2520 ==> !b,
        trimmed(query@).len() <= 2520 && (forall|i: int|
            0 <= i < trimmed(query@).len() ==> (#[trigger] trimmed(query@)[i]) as u32 <= 0x7f) ==> b,
{
    let q = trimmed(query@);
    if q.len() <= 2520 && (forall|i: int| 0 <= i < q.len() ==> (#[trigger] q[i]) as u32 <= 0x7f) {
        assert forall|j: int| 0 <= j < q.len() implies !is_marked(#[trigger] q[j]) by {
            assert(q[j] as u32 <= 0x7f);
        }
    }
}

} // verus!
