//! What outlives the player: the saved queue, and playlists.
use crate::paths::{join_path, joined_path, name_end, split_name};
use crate::scan::{ext_is, has_ext};
use crate::text::{
    chars_of, decimal, first_of, is_digit, is_space, lemma_decimal_value, lines, next_line, numeral,
    parse_numeral, push_decimal, string_of, trim_end, trim_of, trim_start, trimmed, unsigned_part,
    without_cr,
};
use vstd::prelude::*;
use vstd::string::*;

verus! {

/// The saved state, as it is stored.
pub struct SavedSession {
    pub queue: String,
    pub current: String,
    pub pos_ms: String,
}

/// The state that a saved one stands for.
pub struct Session {
    pub paths: Vec<String>,
    pub current: Option<usize>,
    pub resume_ms: Option<u64>,
}

pub open spec fn text_views(v: Seq<String>) -> Seq<Seq<char>> {
    v.map_values(|s: String| s@)
}

/// Texts with line feeds between.
pub open spec fn lines_joined(v: Seq<Seq<char>>) -> Seq<char>
    decreases v.len(),
{
    if v.len() == 0 {
        Seq::empty()
    } else if v.len() == 1 {
        v[0]
    } else {
        v[0] + seq!['\n'] + lines_joined(v.skip(1))
    }
}

proof fn lemma_joined_push(v: Seq<Seq<char>>, t: Seq<char>)
    requires
        v.len() > 0,
    ensures
        lines_joined(v.push(t)) == lines_joined(v) + seq!['\n'] + t,
    decreases v.len(),
{
    let w = v.push(t);
    if v.len() == 1 {
        assert(w.skip(1) =~= seq![t]);
        assert(lines_joined(seq![t]) == t);
    } else {
        assert(w.skip(1) =~= v.skip(1).push(t));
        lemma_joined_push(v.skip(1), t);
        assert(v[0] + seq!['\n'] + (lines_joined(v.skip(1)) + seq!['\n'] + t) =~= (v[0]
            + seq!['\n'] + lines_joined(v.skip(1))) + seq!['\n'] + t);
    }
}

/// How the current place is saved.
pub open spec fn place_text(current: Option<nat>) -> Seq<char> {
    match current {
        Some(i) => decimal(i),
        None => Seq::empty(),
    }
}

/// The saved form of a queue.
pub fn save_session(paths: &Vec<String>, current: Option<usize>, pos_ms: u64) -> (s: SavedSession)
    ensures
        s.queue@ == lines_joined(text_views(paths@)),
        s.current@ == place_text(
            match current {
                Some(i) => Some(i as nat),
                None => None,
            },
        ),
        s.pos_ms@ == decimal(pos_ms as nat),
{
    let mut queue = String::new();
    for i in 0..paths.len()
        invariant
            queue@ == lines_joined(text_views(paths@.take(i as int))),
    {
        let ghost before = text_views(paths@.take(i as int));
        assert(text_views(paths@.take(i + 1)) =~= before.push(paths@[i as int]@));
        if i > 0 {
            queue.push('\n');
            proof {
                lemma_joined_push(before, paths@[i as int]@);
            }
        }
        queue.append(paths[i].as_str());
        assert(queue@ =~= lines_joined(text_views(paths@.take(i + 1)))) by {
            if i == 0 {
                assert(before.push(paths@[0]@)[0] == paths@[0]@);
            }
        }
    }
    assert(paths@.take(paths@.len() as int) =~= paths@);
    let mut cur = String::new();
    if let Some(i) = current {
        push_decimal(&mut cur, i as u64);
        assert(cur@ =~= decimal(i as nat));
    }
    let mut pos = String::new();
    push_decimal(&mut pos, pos_ms);
    assert(pos@ =~= decimal(pos_ms as nat));
    SavedSession { queue, current: cur, pos_ms: pos }
}

/// The lines that are not empty.
pub open spec fn full_lines(ls: Seq<Seq<char>>) -> Seq<Seq<char>>
    decreases ls.len(),
{
    if ls.len() == 0 {
        Seq::empty()
    } else if ls[0].len() == 0 {
        full_lines(ls.skip(1))
    } else {
        seq![ls[0]] + full_lines(ls.skip(1))
    }
}

/// A restored session.
pub struct SessionView {
    pub paths: Seq<Seq<char>>,
    pub current: Option<nat>,
    pub resume_ms: Option<nat>,
}

/// The session that three saved texts stand for; none if the queue is blank. A place outside
/// the queue, and one that is no number, mean that no track is current.
pub open spec fn restored(queue: Seq<char>, current: Seq<char>, pos: Seq<char>) -> Option<
    SessionView,
> {
    let paths = full_lines(lines(queue));
    if trimmed(queue).len() == 0 || paths.len() == 0 {
        None
    } else {
        Some(
            SessionView {
                paths,
                current: match numeral(current, u64::MAX as nat) {
                    Some(n) if n < paths.len() => Some(n),
                    _ => None,
                },
                resume_ms: match numeral(pos, u64::MAX as nat) {
                    Some(n) if n > 0 => Some(n),
                    _ => None,
                },
            },
        )
    }
}

impl View for Session {
    type V = SessionView;

    open spec fn view(&self) -> SessionView {
        SessionView {
            paths: text_views(self.paths@),
            current: match self.current {
                Some(i) => Some(i as nat),
                None => None,
            },
            resume_ms: match self.resume_ms {
                Some(n) => Some(n as nat),
                None => None,
            },
        }
    }
}

/// Reads a saved session.
pub fn restore_session(saved: &SavedSession) -> (r: Option<Session>)
    ensures
        match restored(saved.queue@, saved.current@, saved.pos_ms@) {
            Some(v) => r matches Some(s) && s@ == v,
            None => r is None,
        },
{
    let text = chars_of(saved.queue.as_str());
    if trim_of(text.as_slice()).len() == 0 {
        return None;
    }
    let mut paths: Vec<String> = Vec::new();
    let mut at: usize = 0;
    assert(text@.skip(0) =~= text@);
    assert(text_views(paths@) + full_lines(lines(text@)) =~= full_lines(lines(text@)));
    while at < text.len()
        invariant
            at <= text@.len(),
            full_lines(lines(text@)) == text_views(paths@) + full_lines(
                lines(text@.skip(at as int)),
            ),
        decreases text@.len() - at,
    {
        let (line, next) = next_line(text.as_slice(), at);
        let ghost ls = lines(text@.skip(at as int));
        assert(ls[0] == line@);
        assert(ls.skip(1) =~= lines(text@.skip(next as int)));
        if line.len() > 0 {
            let ghost p0 = paths@;
            paths.push(string_of(line));
            assert(text_views(paths@) =~= text_views(p0).push(line@));
            assert(text_views(p0) + (seq![line@] + full_lines(ls.skip(1))) =~= text_views(paths@)
                + full_lines(ls.skip(1)));
        }
        at = next;
    }
    assert(text@.skip(at as int) =~= Seq::empty());
    assert(text_views(paths@) + Seq::<Seq<char>>::empty() =~= text_views(paths@));
    if paths.len() == 0 {
        return None;
    }
    let cur = chars_of(saved.current.as_str());
    let current: Option<usize> = match parse_numeral(cur.as_slice(), u64::MAX) {
        Some(n) => if n < paths.len() as u64 {
            Some(n as usize)
        } else {
            None
        },
        None => None,
    };
    let pos = chars_of(saved.pos_ms.as_str());
    let resume_ms: Option<u64> = match parse_numeral(pos.as_slice(), u64::MAX) {
        Some(n) => if n > 0 {
            Some(n)
        } else {
            None
        },
        None => None,
    };
    Some(Session { paths, current, resume_ms })
}

/// A path that survives being written on a line of its own.
pub open spec fn one_line(p: Seq<char>) -> bool {
    &&& p.len() > 0
    &&& forall|i: int| 0 <= i < p.len() ==> p[i] != '\n'
    &&& p.last() != '\r'
}

proof fn lemma_lines_of_line(p: Seq<char>, rest: Seq<char>)
    requires
        one_line(p),
    ensures
        lines(p + seq!['\n'] + rest) == seq![p] + lines(rest),
        lines(p) == seq![p],
{
    let s = p + seq!['\n'] + rest;
    crate::text::lemma_first_of(s, '\n', p.len() as int);
    assert(s.take(p.len() as int) =~= p);
    assert(s.skip(p.len() as int + 1) =~= rest);
    assert(without_cr(p) == p);
    crate::text::lemma_first_of(p, '\n', p.len() as int);
}

proof fn lemma_lines_of_joined(v: Seq<Seq<char>>)
    requires
        forall|i: int| 0 <= i < v.len() ==> one_line(#[trigger] v[i]),
    ensures
        lines(lines_joined(v)) == v,
        full_lines(v) == v,
    decreases v.len(),
{
    if v.len() == 0 {
        assert(v =~= Seq::empty());
    } else {
        assert(one_line(v[0]));
        let t = v.skip(1);
        assert forall|i: int| 0 <= i < t.len() implies one_line(#[trigger] t[i]) by {
            assert(t[i] == v[i + 1]);
        }
        lemma_lines_of_joined(t);
        lemma_lines_of_line(v[0], lines_joined(t));
        assert(seq![v[0]] + t =~= v);
        if v.len() == 1 {
            assert(t =~= Seq::empty());
            assert(seq![v[0]] =~= v);
        }
    }
}

/// Reading a number back from its decimal numeral gives the number.
pub proof fn law_numerals_read_back(n: nat, max: nat)
    requires
        n <= max,
    ensures
        numeral(decimal(n), max) == Some(n),
{
    lemma_decimal_value(n);
    assert(is_digit(decimal(n)[0]));
    assert(unsigned_part(decimal(n)) == decimal(n));
}

proof fn lemma_trimmed_keeps(s: Seq<char>, i: int)
    requires
        0 <= i < s.len(),
        !is_space(s[i]),
    ensures
        trimmed(s).len() > 0,
{
    lemma_trim_start_keeps(s, i);
}

proof fn lemma_trim_start_keeps(s: Seq<char>, i: int)
    requires
        0 <= i < s.len(),
        !is_space(s[i]),
    ensures
        trim_end(trim_start(s)).len() > 0,
    decreases s.len(),
{
    if is_space(s[0]) {
        assert(s.skip(1)[i - 1] == s[i]);
        lemma_trim_start_keeps(s.skip(1), i - 1);
    } else {
        lemma_trim_end_keeps(s);
    }
}

proof fn lemma_trim_end_keeps(s: Seq<char>)
    requires
        s.len() > 0,
        !is_space(s[0]),
    ensures
        trim_end(s).len() > 0,
    decreases s.len(),
{
    if is_space(s.last()) {
        assert(s.len() > 1);
        assert(s.drop_last()[0] == s[0]);
        lemma_trim_end_keeps(s.drop_last());
    }
}

proof fn lemma_joined_holds(v: Seq<Seq<char>>, k: int, i: int) -> (j: int)
    requires
        0 <= k < v.len(),
        0 <= i < v[k].len(),
    ensures
        0 <= j < lines_joined(v).len(),
        lines_joined(v)[j] == v[k][i],
    decreases v.len(),
{
    if v.len() == 1 {
        i
    } else if k == 0 {
        i
    } else {
        assert(v.skip(1)[k - 1] == v[k]);
        let j = lemma_joined_holds(v.skip(1), k - 1, i);
        v[0].len() as int + 1 + j
    }
}

/// A session survives the restart: the queue, the current place and the position that were
/// saved are the ones that come back. The paths stand on one line each, and not all of them
/// are blank.
pub proof fn law_session_comes_back(
    paths: Seq<Seq<char>>,
    current: Option<nat>,
    pos: nat,
    k: int,
    i: int,
)
    requires
        forall|n: int| 0 <= n < paths.len() ==> one_line(#[trigger] paths[n]),
        0 <= k < paths.len(),
        0 <= i < paths[k].len(),
        !is_space(paths[k][i]),
        current matches Some(c) ==> c < paths.len() && c <= u64::MAX,
        pos <= u64::MAX,
    ensures
        restored(lines_joined(paths), place_text(current), decimal(pos)) == Some(
            SessionView {
                paths,
                current,
                resume_ms: if pos > 0 {
                    Some(pos)
                } else {
                    None
                },
            },
        ),
{
    lemma_lines_of_joined(paths);
    law_numerals_read_back(pos, u64::MAX as nat);
    if let Some(c) = current {
        law_numerals_read_back(c, u64::MAX as nat);
    }
    let j = lemma_joined_holds(paths, k, i);
    lemma_trimmed_keeps(lines_joined(paths), j);
}

/// The text of a playlist.
pub open spec fn playlist_text(paths: Seq<Seq<char>>) -> Seq<char>
    decreases paths.len(),
{
    if paths.len() == 0 {
        "#EXTM3U\n"@
    } else {
        playlist_text(paths.drop_last()) + paths.last() + seq!['\n']
    }
}

/// The playlist of some paths.
pub fn save_playlist(paths: &Vec<String>) -> (s: String)
    ensures
        s@ == playlist_text(text_views(paths@)),
{
    let mut s = String::from_str("#EXTM3U\n");
    for i in 0..paths.len()
        invariant
            s@ == playlist_text(text_views(paths@.take(i as int))),
    {
        let ghost v = text_views(paths@.take(i + 1));
        assert(v.drop_last() =~= text_views(paths@.take(i as int)));
        assert(v.last() == paths@[i as int]@);
        s.append(paths[i].as_str());
        s.push('\n');
        assert(s@ =~= playlist_text(v));
    }
    assert(paths@.take(paths@.len() as int) =~= paths@);
    s
}

/// Where an entry of a playlist leads: an absolute one to itself, another one from the
/// playlist's folder.
pub open spec fn resolved(entry: Seq<char>, base: Option<Seq<char>>) -> Seq<char> {
    match base {
        Some(b) => joined_path(b, entry),
        None => entry,
    }
}

pub fn resolve_rel(entry: &str, base: Option<&str>) -> (s: String)
    ensures
        s@ == resolved(entry@, opt_view(base)),
{
    match base {
        Some(b) => join_path(b, entry),
        None => String::from_str(entry),
    }
}

/// The entries of a playlist: its lines without the white space around them, except blank
/// ones and comments.
pub open spec fn entries(ls: Seq<Seq<char>>) -> Seq<Seq<char>>
    decreases ls.len(),
{
    if ls.len() == 0 {
        Seq::empty()
    } else {
        let t = trimmed(ls[0]);
        if t.len() == 0 || t[0] == '#' {
            entries(ls.skip(1))
        } else {
            seq![t] + entries(ls.skip(1))
        }
    }
}

/// The paths of a playlist in a folder.
pub open spec fn loaded(body: Seq<char>, base: Option<Seq<char>>) -> Seq<Seq<char>> {
    entries(lines(body)).map_values(|e: Seq<char>| resolved(e, base))
}

pub open spec fn opt_view(base: Option<&str>) -> Option<Seq<char>> {
    match base {
        Some(b) => Some(b@),
        None => None,
    }
}

/// The paths of a playlist.
pub fn load_playlist(body: &str, base: Option<&str>) -> (r: Vec<String>)
    ensures
        text_views(r@) == loaded(body@, opt_view(base)),
{
    let ghost b = opt_view(base);
    let ghost f = |e: Seq<char>| resolved(e, b);
    let text = chars_of(body);
    let mut r: Vec<String> = Vec::new();
    let ghost mut got: Seq<Seq<char>> = Seq::empty();
    let mut at: usize = 0;
    assert(text@.skip(0) =~= text@);
    assert(got + entries(lines(text@)) =~= entries(lines(text@)));
    assert(text_views(r@) =~= got.map_values(f));
    while at < text.len()
        invariant
            at <= text@.len(),
            b == opt_view(base),
            f == (|e: Seq<char>| resolved(e, b)),
            entries(lines(text@)) == got + entries(lines(text@.skip(at as int))),
            text_views(r@) == got.map_values(f),
        decreases text@.len() - at,
    {
        let (line, next) = next_line(text.as_slice(), at);
        let ghost ls = lines(text@.skip(at as int));
        assert(ls[0] == line@);
        assert(ls.skip(1) =~= lines(text@.skip(next as int)));
        let t = trim_of(line);
        if t.len() > 0 && t[0] != '#' {
            let e = string_of(t);
            let full = resolve_rel(e.as_str(), base);
            let ghost r0 = r@;
            let ghost g0 = got;
            r.push(full);
            proof {
                got = got.push(t@);
                assert(got.map_values(f) =~= g0.map_values(f).push(resolved(t@, b)));
                assert(text_views(r@) =~= text_views(r0).push(full@));
                assert(g0 + (seq![t@] + entries(ls.skip(1))) =~= got + entries(ls.skip(1)));
            }
        }
        at = next;
    }
    assert(text@.skip(at as int) =~= Seq::empty());
    assert(got + Seq::<Seq<char>>::empty() =~= got);
    r
}

/// A path that a playlist gives back as it is.
pub open spec fn listable(p: Seq<char>) -> bool {
    &&& one_line(p)
    &&& trimmed(p) == p
    &&& p[0] != '#'
}

proof fn lemma_lines_append(s: Seq<char>, p: Seq<char>)
    requires
        s.len() > 0,
        s.last() == '\n',
        one_line(p),
    ensures
        lines(s + p + seq!['\n']) == lines(s).push(p),
    decreases s.len(),
{
    let k = first_of(s, '\n');
    lemma_first_in(s);
    let t = s + p + seq!['\n'];
    crate::text::lemma_first_of(t, '\n', k);
    let rest = s.skip(k + 1);
    assert(t.take(k) =~= s.take(k));
    assert(t.skip(k + 1) =~= rest + p + seq!['\n']);
    if rest.len() == 0 {
        assert(rest + p + seq!['\n'] =~= p + seq!['\n'] + Seq::<char>::empty());
        lemma_lines_of_line(p, Seq::empty());
        assert(lines(Seq::<char>::empty()) =~= Seq::empty());
        assert(lines(rest) =~= Seq::empty());
        let l = without_cr(s.take(k));
        assert(seq![l] + (seq![p] + Seq::<Seq<char>>::empty()) =~= (seq![l] + Seq::<
            Seq<char>,
        >::empty()).push(p));
    } else {
        assert(rest.last() == s.last());
        lemma_lines_append(rest, p);
        let l = without_cr(s.take(k));
        assert(seq![l] + lines(rest).push(p) =~= (seq![l] + lines(rest)).push(p));
    }
}

proof fn lemma_first_in(s: Seq<char>)
    requires
        s.len() > 0,
        s.last() == '\n',
    ensures
        0 <= first_of(s, '\n') < s.len(),
        s[first_of(s, '\n')] == '\n',
        forall|i: int| 0 <= i < first_of(s, '\n') ==> s[i] != '\n',
    decreases s.len(),
{
    if s[0] != '\n' {
        let t = s.skip(1);
        assert(t.last() == s.last());
        lemma_first_in(t);
        assert forall|i: int| 0 <= i < first_of(s, '\n') implies s[i] != '\n' by {
            if i > 0 {
                assert(t[i - 1] == s[i]);
            }
        }
    }
}

proof fn lemma_entries_push(ls: Seq<Seq<char>>, p: Seq<char>)
    requires
        listable(p),
    ensures
        entries(ls.push(p)) == entries(ls).push(p),
    decreases ls.len(),
{
    let w = ls.push(p);
    if ls.len() == 0 {
        assert(w.skip(1) =~= Seq::empty());
        assert(entries(Seq::<Seq<char>>::empty()) =~= Seq::empty());
        assert(entries(w) =~= seq![p]);
        assert(entries(ls).push(p) =~= seq![p]);
    } else {
        assert(w.skip(1) =~= ls.skip(1).push(p));
        lemma_entries_push(ls.skip(1), p);
        let t = trimmed(ls[0]);
        assert(seq![t] + entries(ls.skip(1)).push(p) =~= (seq![t] + entries(ls.skip(1))).push(p));
    }
}

proof fn lemma_entries_of_playlist(paths: Seq<Seq<char>>)
    requires
        forall|i: int| 0 <= i < paths.len() ==> listable(#[trigger] paths[i]),
    ensures
        entries(lines(playlist_text(paths))) == paths,
        playlist_text(paths).len() > 0,
        playlist_text(paths).last() == '\n',
    decreases paths.len(),
{
    if paths.len() == 0 {
        reveal_strlit("#EXTM3U\n");
        let h = "#EXTM3U\n"@;
        assert(h.len() == 8);
        assert(h[0] == '#' && h[1] == 'E' && h[2] == 'X' && h[3] == 'T' && h[4] == 'M' && h[5]
            == '3' && h[6] == 'U' && h[7] == '\n');
        crate::text::lemma_first_of(h, '\n', 7);
        let l = h.take(7);
        assert(l.last() == 'U');
        assert(without_cr(l) == l);
        assert(h.skip(8) =~= Seq::empty());
        assert(lines(Seq::<char>::empty()) =~= Seq::empty());
        assert(lines(h) =~= seq![l]);
        assert(trim_start(l) == l);
        assert(trim_end(l) == l);
        assert(seq![l].skip(1) =~= Seq::empty());
        assert(entries(Seq::<Seq<char>>::empty()) =~= Seq::empty());
        assert(entries(seq![l]) =~= Seq::empty());
        assert(paths =~= Seq::empty());
    } else {
        let v = paths.drop_last();
        assert forall|i: int| 0 <= i < v.len() implies listable(#[trigger] v[i]) by {
            assert(v[i] == paths[i]);
        }
        lemma_entries_of_playlist(v);
        let p = paths.last();
        assert(listable(paths[paths.len() - 1]));
        lemma_lines_append(playlist_text(v), p);
        lemma_entries_push(lines(playlist_text(v)), p);
        assert(v.push(p) =~= paths);
    }
}

/// A saved playlist loads as it was, from whatever folder: its absolute paths, in order.
pub proof fn law_playlist_comes_back(paths: Seq<Seq<char>>, base: Option<Seq<char>>)
    requires
        forall|i: int| 0 <= i < paths.len() ==> listable(#[trigger] paths[i]) && paths[i][0] == '/',
    ensures
        loaded(playlist_text(paths), base) == paths,
{
    lemma_entries_of_playlist(paths);
    assert(loaded(playlist_text(paths), base) =~= paths);
}

/// A path with an extension in place of its own; a path that names no file stays.
pub open spec fn with_extension(p: Seq<char>, ext: Seq<char>) -> Seq<char> {
    match split_name(p) {
        Some(k) => if ext.len() == 0 {
            p.take(k)
        } else {
            p.take(k) + "."@ + ext
        },
        None => p,
    }
}

/// The path, made to end in an extension. One that it has, in any case, stays as it is.
pub fn ensure_ext(path: &str, ext: &str) -> (s: String)
    requires
        !ext@.contains('/'),
    ensures
        s@ == (if ext_is(path@, ext@) {
            path@
        } else {
            with_extension(path@, ext@)
        }),
{
    if has_ext(path, ext) {
        return String::from_str(path);
    }
    match name_end(path) {
        None => String::from_str(path),
        Some(k) => {
            let c = chars_of(path);
            let head = vstd::slice::slice_subrange(c.as_slice(), 0, k);
            assert(head@ =~= path@.take(k as int));
            let mut s = string_of(head);
            if chars_of(ext).len() > 0 {
                s.append(".");
                s.append(ext);
            }
            s
        },
    }
}

/// A saved queue is its paths with a line feed between each two; the current place and the
/// position are written as numbers, and no place as nothing.
pub proof fn law_saved_queue_lists_its_paths(
    paths: Vec<String>,
    more: Vec<String>,
    last: String,
    current: Option<usize>,
    pos: u64,
    a: SavedSession,
    b: SavedSession,
)
    requires
        call_ensures(save_session, (&paths, current, pos), a),
        call_ensures(save_session, (&more, current, pos), b),
        more@ == paths@.push(last),
    ensures
        paths@.len() == 0 ==> a.queue@.len() == 0 && b.queue@ == last@,
        paths@.len() > 0 ==> b.queue@ == a.queue@ + seq!['\n'] + last@,
        current is None ==> a.current@.len() == 0,
        current matches Some(i) ==> a.current@ == decimal(i as nat),
        a.pos_ms@ == decimal(pos as nat),
{
    let v = text_views(paths@);
    assert(text_views(more@) =~= v.push(last@));
    if paths@.len() > 0 {
        lemma_joined_push(v, last@);
    }
}

/// What is saved comes back: the same paths in the same order, the same current place and the
/// same position, as long as every path stands on a line of its own and not all are blank.
pub proof fn law_saved_session_is_restored(
    paths: Vec<String>,
    current: Option<usize>,
    pos: u64,
    saved: SavedSession,
    r: Option<Session>,
    k: int,
    i: int,
    n: int,
)
    requires
        call_ensures(save_session, (&paths, current, pos), saved),
        call_ensures(restore_session, (&saved,), r),
        forall|m: int| 0 <= m < paths@.len() ==> one_line((#[trigger] paths@[m])@),
        0 <= k < paths@.len(),
        0 <= i < paths@[k]@.len(),
        !is_space(paths@[k]@[i]),
        current matches Some(c) ==> c < paths@.len(),
        0 <= n < paths@.len(),
    ensures
        r matches Some(s) && {
            &&& s.paths@.len() == paths@.len()
            &&& s.paths@[n]@ == paths@[n]@
            &&& s.current == current
            &&& pos > 0 ==> s.resume_ms == Some(pos)
            &&& pos == 0 ==> s.resume_ms is None
        },
{
    let v = text_views(paths@);
    let c = match current {
        Some(x) => Some(x as nat),
        None => None,
    };
    assert forall|m: int| 0 <= m < v.len() implies one_line(#[trigger] v[m]) by {
        assert(one_line(paths@[m]@));
    }
    assert(v[k] == paths@[k]@);
    law_session_comes_back(v, c, pos as nat, k, i);
    let s = r->0;
    assert(s@.paths == v);
    assert(s@.paths.len() == s.paths@.len());
    assert(s@.paths[n] == s.paths@[n]@);
    assert(s@.current == c);
}

/// A blank queue restores nothing; a place that is no number, or lies outside the queue, is no
/// place; no position, or the start, is nothing to resume from.
pub proof fn law_restored_place_is_in_the_queue(saved: SavedSession, r: Option<Session>)
    requires
        call_ensures(restore_session, (&saved,), r),
    ensures
        (forall|i: int| 0 <= i < saved.queue@.len() ==> is_space(#[trigger] saved.queue@[i]))
            ==> r is None,
        r matches Some(s) ==> {
            &&& s.paths@.len() > 0
            &&& match numeral(saved.current@, u64::MAX as nat) {
                Some(n) => (n < s.paths@.len() ==> (s.current matches Some(c) && c == n)) && (n
                    >= s.paths@.len() ==> s.current is None),
                None => s.current is None,
            }
            &&& match numeral(saved.pos_ms@, u64::MAX as nat) {
                Some(n) => (n > 0 ==> (s.resume_ms matches Some(m) && m == n)) && (n == 0
                    ==> s.resume_ms is None),
                None => s.resume_ms is None,
            }
        },
{
    if forall|i: int| 0 <= i < saved.queue@.len() ==> is_space(#[trigger] saved.queue@[i]) {
        lemma_blank_trimmed(saved.queue@);
    }
    if let Some(s) = r {
        assert(s@.paths.len() == s.paths@.len());
        assert(s@.current == match s.current {
            Some(i) => Some(i as nat),
            None => None,
        });
        assert(s@.resume_ms == match s.resume_ms {
            Some(i) => Some(i as nat),
            None => None,
        });
    }
}

proof fn lemma_blank_trimmed(s: Seq<char>)
    requires
        forall|i: int| 0 <= i < s.len() ==> is_space(#[trigger] s[i]),
    ensures
        trimmed(s).len() == 0,
    decreases s.len(),
{
    if s.len() > 0 {
        assert(is_space(s[0]));
        let t = s.skip(1);
        assert forall|i: int| 0 <= i < t.len() implies is_space(#[trigger] t[i]) by {
            assert(t[i] == s[i + 1]);
        }
        lemma_blank_trimmed(t);
    }
}

/// A playlist is its heading and then its paths, each on a line of its own.
pub proof fn law_playlist_is_a_line_per_path(
    paths: Vec<String>,
    more: Vec<String>,
    last: String,
    a: String,
    b: String,
)
    requires
        call_ensures(save_playlist, (&paths,), a),
        call_ensures(save_playlist, (&more,), b),
        more@ == paths@.push(last),
    ensures
        paths@.len() == 0 ==> a@ == "#EXTM3U\n"@,
        b@ == a@ + last@ + seq!['\n'],
{
    let v = text_views(paths@);
    assert(text_views(more@) =~= v.push(last@));
    assert(v.push(last@).drop_last() =~= v);
}

/// A playlist that was saved loads as it was: absolute paths come back in order, wherever the
/// playlist lies.
pub proof fn law_saved_playlist_loads(
    paths: Vec<String>,
    body: String,
    text: &str,
    base: Option<&str>,
    r: Vec<String>,
    k: int,
)
    requires
        call_ensures(save_playlist, (&paths,), body),
        call_ensures(load_playlist, (text, base), r),
        text@ == body@,
        forall|i: int|
            0 <= i < paths@.len() ==> listable((#[trigger] paths@[i])@) && paths@[i]@[0] == '/',
        0 <= k < paths@.len(),
    ensures
        r@.len() == paths@.len(),
        r@[k]@ == paths@[k]@,
{
    let v = text_views(paths@);
    assert forall|i: int| 0 <= i < v.len() implies listable(#[trigger] v[i]) && v[i][0] == '/' by {
        assert(v[i] == paths@[i]@);
    }
    law_playlist_comes_back(v, opt_view(base));
    assert(text_views(r@) == v);
    assert(text_views(r@).len() == r@.len());
    assert(text_views(r@)[k] == r@[k]@);
}

/// A line of a playlist is an entry unless it is blank or a comment.
pub open spec fn is_entry(line: Seq<char>) -> bool {
    trimmed(line).len() > 0 && trimmed(line)[0] != '#'
}

/// The entries among the first `k` lines.
pub open spec fn entries_before(ls: Seq<Seq<char>>, k: int) -> nat
    decreases k,
{
    if k <= 0 {
        0
    } else {
        entries_before(ls, k - 1) + if is_entry(ls[k - 1]) {
            1nat
        } else {
            0nat
        }
    }
}

proof fn lemma_entries_shift(ls: Seq<Seq<char>>, k: int)
    requires
        1 <= k <= ls.len(),
    ensures
        entries_before(ls, k) == entries_before(ls.skip(1), k - 1) + (if is_entry(ls[0]) {
            1nat
        } else {
            0nat
        }),
    decreases k,
{
    assert(entries_before(ls, 0) == 0);
    assert(entries_before(ls.skip(1), 0) == 0);
    if k > 1 {
        lemma_entries_shift(ls, k - 1);
        assert(ls.skip(1)[k - 2] == ls[k - 1]);
    }
}

proof fn lemma_entry_place(ls: Seq<Seq<char>>, k: int)
    requires
        0 <= k < ls.len(),
    ensures
        entries(ls).len() == entries_before(ls, ls.len() as int),
        is_entry(ls[k]) ==> entries_before(ls, k) < entries(ls).len() && entries(
            ls,
        )[entries_before(ls, k) as int] == trimmed(ls[k]),
    decreases ls.len(),
{
    let rest = ls.skip(1);
    lemma_entries_shift(ls, ls.len() as int);
    if rest.len() == 0 {
        assert(entries(rest).len() == 0);
        assert(entries_before(rest, 0) == 0);
    } else {
        lemma_entry_place(rest, 0);
    }
    if k > 0 {
        lemma_entries_shift(ls, k);
        lemma_entry_place(rest, k - 1);
        assert(rest[k - 1] == ls[k]);
    }
}

/// Loading a playlist gives one path for each entry, in order: the line without the white space
/// around it, from the playlist's folder if it is not absolute.
pub proof fn law_every_entry_is_loaded(body: &str, base: Option<&str>, r: Vec<String>, k: int)
    requires
        call_ensures(load_playlist, (body, base), r),
        0 <= k < lines(body@).len(),
    ensures
        ({
            let ls = lines(body@);
            let e = trimmed(ls[k]);
            let n = entries_before(ls, k) as int;
            &&& r@.len() == entries_before(ls, ls.len() as int)
            &&& is_entry(ls[k]) ==> {
                &&& n < r@.len()
                &&& base is None || e[0] == '/' ==> r@[n]@ == e
                &&& base matches Some(b) ==> e[0] != '/' ==> {
                    &&& b@.len() == 0 || b@.last() == '/' ==> r@[n]@ == b@ + e
                    &&& b@.len() > 0 && b@.last() != '/' ==> r@[n]@ == b@ + seq!['/'] + e
                }
            }
        }),
{
    let ls = lines(body@);
    lemma_entry_place(ls, k);
    reveal_strlit("/");
    assert("/"@ =~= seq!['/']);
    assert(text_views(r@) == loaded(body@, opt_view(base)));
    assert(text_views(r@).len() == r@.len());
    let n = entries_before(ls, k) as int;
    if is_entry(ls[k]) {
        assert(text_views(r@)[n] == r@[n]@);
    }
}

/// An entry leads to itself if it is absolute or the folder is not known, and else into the
/// folder.
pub proof fn law_entries_resolve_from_the_folder(entry: &str, base: Option<&str>, s: String)
    requires
        call_ensures(resolve_rel, (entry, base), s),
    ensures
        base is None ==> s@ == entry@,
        base is Some && entry@.len() > 0 && entry@[0] == '/' ==> s@ == entry@,
        base matches Some(b) ==> entry@.len() == 0 || entry@[0] != '/' ==> {
            &&& b@.len() == 0 || b@.last() == '/' ==> s@ == b@ + entry@
            &&& b@.len() > 0 && b@.last() != '/' ==> s@ == b@ + seq!['/'] + entry@
        },
{
    reveal_strlit("/");
    assert("/"@ =~= seq!['/']);
}

/// A path that has the extension, in any case, stays; another one gets it behind its stem.
pub proof fn law_extension_is_ensured(
    path: &str,
    ext: &str,
    s: String,
    fits: bool,
    k: Option<usize>,
)
    requires
        call_ensures(ensure_ext, (path, ext), s),
        call_ensures(crate::scan::has_ext, (path, ext), fits),
        call_ensures(crate::paths::name_end, (path,), k),
        !ext@.contains('/'),
    ensures
        fits ==> s@ == path@,
        !fits && k is None ==> s@ == path@,
        !fits && k is Some ==> {
            &&& ext@.len() > 0 ==> s@ == path@.take(k->0 as int) + seq!['.'] + ext@
            &&& ext@.len() == 0 ==> s@ == path@.take(k->0 as int)
        },
{
    reveal_strlit(".");
    assert("."@ =~= seq!['.']);
}

/// The lines among the first `k` that are not empty.
pub open spec fn full_before(ls: Seq<Seq<char>>, k: int) -> nat
    decreases k,
{
    if k <= 0 {
        0
    } else {
        full_before(ls, k - 1) + if ls[k - 1].len() > 0 {
            1nat
        } else {
            0nat
        }
    }
}

proof fn lemma_full_shift(ls: Seq<Seq<char>>, k: int)
    requires
        1 <= k <= ls.len(),
    ensures
        full_before(ls, k) == full_before(ls.skip(1), k - 1) + (if ls[0].len() > 0 {
            1nat
        } else {
            0nat
        }),
    decreases k,
{
    assert(full_before(ls, 0) == 0);
    assert(full_before(ls.skip(1), 0) == 0);
    if k > 1 {
        lemma_full_shift(ls, k - 1);
        assert(ls.skip(1)[k - 2] == ls[k - 1]);
    }
}

proof fn lemma_full_place(ls: Seq<Seq<char>>, k: int)
    requires
        0 <= k < ls.len(),
    ensures
        full_lines(ls).len() == full_before(ls, ls.len() as int),
        ls[k].len() > 0 ==> full_before(ls, k) < full_lines(ls).len() && full_lines(
            ls,
        )[full_before(ls, k) as int] == ls[k],
    decreases ls.len(),
{
    let rest = ls.skip(1);
    lemma_full_shift(ls, ls.len() as int);
    if rest.len() == 0 {
        assert(full_lines(rest).len() == 0);
        assert(full_before(rest, 0) == 0);
    } else {
        lemma_full_place(rest, 0);
    }
    if k > 0 {
        lemma_full_shift(ls, k);
        lemma_full_place(rest, k - 1);
        assert(rest[k - 1] == ls[k]);
    }
}

/// A restored queue has one path for each line that is not empty, in order.
pub proof fn law_every_line_is_restored(saved: SavedSession, s: Session, k: int)
    requires
        call_ensures(restore_session, (&saved,), Some(s)),
        0 <= k < lines(saved.queue@).len(),
    ensures
        ({
            let ls = lines(saved.queue@);
            let n = full_before(ls, k) as int;
            &&& s.paths@.len() == full_before(ls, ls.len() as int)
            &&& ls[k].len() > 0 ==> n < s.paths@.len() && s.paths@[n]@ == ls[k]
        }),
{
    let ls = lines(saved.queue@);
    lemma_full_place(ls, k);
    assert(s@.paths == full_lines(ls));
    assert(s@.paths.len() == s.paths@.len());
    let n = full_before(ls, k) as int;
    if ls[k].len() > 0 {
        assert(s@.paths[n] == s.paths@[n]@);
    }
}

} // verus!
