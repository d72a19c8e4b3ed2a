//! File names inside slash-separated paths.
use crate::text::{chars_of, string_of};
use vstd::prelude::*;
use vstd::string::*;

verus! {

/// Where the last piece of `p` behind a slash starts.
pub open spec fn piece_start(p: Seq<char>) -> int
    decreases p.len(),
{
    if p.len() == 0 || p.last() == '/' {
        p.len() as int
    } else {
        piece_start(p.drop_last())
    }
}

/// Where the name of the file that a path leads to starts and ends. It is the path's last
/// piece, trailing slashes and single dots aside. A path that ends in `..`, or names nothing,
/// has none.
pub open spec fn name_span(p: Seq<char>) -> Option<(int, int)>
    decreases p.len(),
{
    if p.len() == 0 {
        None
    } else if p.last() == '/' {
        name_span(p.drop_last())
    } else {
        let k = piece_start(p);
        let piece = p.skip(k);
        if piece =~= seq!['.'] {
            if 0 < k < p.len() {
                name_span(p.take(k))
            } else {
                None
            }
        } else if piece =~= seq!['.', '.'] {
            None
        } else {
            Some((k, p.len() as int))
        }
    }
}

/// The name of the file that a path leads to.
pub open spec fn file_name(p: Seq<char>) -> Option<Seq<char>> {
    match name_span(p) {
        Some((a, b)) => Some(p.subrange(a, b)),
        None => None,
    }
}

/// The place of the last dot, or the length if there is none.
pub open spec fn last_dot(name: Seq<char>) -> int
    decreases name.len(),
{
    if name.len() == 0 {
        0
    } else if name.last() == '.' {
        name.len() - 1
    } else {
        let d = last_dot(name.drop_last());
        if d == name.len() - 1 {
            name.len() as int
        } else {
            d
        }
    }
}

/// The name has a dot that splits it: one that is not its first character.
pub open spec fn splits(name: Seq<char>) -> bool {
    0 < last_dot(name) < name.len()
}

/// The part of the file name behind its last dot.
pub open spec fn extension(p: Seq<char>) -> Option<Seq<char>> {
    match file_name(p) {
        Some(name) if splits(name) => Some(name.skip(last_dot(name) + 1)),
        _ => None,
    }
}

/// The file name without its extension.
pub open spec fn file_stem(p: Seq<char>) -> Option<Seq<char>> {
    match file_name(p) {
        Some(name) => if splits(name) {
            Some(name.take(last_dot(name)))
        } else {
            Some(name)
        },
        None => None,
    }
}

proof fn lemma_piece_start(p: Seq<char>, k: int)
    requires
        0 <= k <= p.len(),
        forall|i: int| k <= i < p.len() ==> p[i] != '/',
        k > 0 ==> p[k - 1] == '/',
    ensures
        piece_start(p) == k,
    decreases p.len(),
{
    if k < p.len() {
        assert(p.last() == p[p.len() - 1]);
        lemma_piece_start(p.drop_last(), k);
    } else if p.len() > 0 {
        assert(p.last() == p[p.len() - 1]);
    }
}

proof fn lemma_last_dot(p: Seq<char>, d: int)
    requires
        0 <= d <= p.len(),
        forall|i: int| d < i < p.len() ==> p[i] != '.',
        d < p.len() ==> p[d] == '.',
        d == p.len() ==> forall|i: int| 0 <= i < p.len() ==> p[i] != '.',
    ensures
        last_dot(p) == d,
    decreases p.len(),
{
    if p.len() > 0 {
        assert(p.last() == p[p.len() - 1]);
        if d == p.len() {
            assert(p[p.len() - 1] != '.');
            lemma_last_dot(p.drop_last(), d - 1);
        } else if d < p.len() - 1 {
            assert(p[p.len() - 1] != '.');
            lemma_last_dot(p.drop_last(), d);
        }
    }
}

/// Where the file name lies in the path: start and end.
fn name_range(p: &[char]) -> (r: Option<(usize, usize)>)
    ensures
        match r {
            Some((a, b)) => a < b <= p@.len() && name_span(p@) == Some((a as int, b as int)),
            None => name_span(p@) is None,
        },
{
    let mut end: usize = p.len();
    assert(p@.take(end as int) =~= p@);
    loop
        invariant
            end <= p@.len(),
            name_span(p@) == name_span(p@.take(end as int)),
        decreases end,
    {
        let ghost cur = p@.take(end as int);
        if end == 0 {
            return None;
        }
        assert(cur.last() == p@[end - 1]);
        if p[end - 1] == '/' {
            assert(cur.drop_last() =~= p@.take(end - 1));
            end = end - 1;
            continue;
        }
        let mut k: usize = end;
        while k > 0 && p[k - 1] != '/'
            invariant
                k <= end <= p@.len(),
                forall|i: int| k <= i < end ==> p@[i] != '/',
            decreases k,
        {
            k = k - 1;
        }
        proof {
            lemma_piece_start(cur, k as int);
        }
        assert(cur.skip(k as int) =~= p@.subrange(k as int, end as int));
        if end - k == 1 && p[k] == '.' {
            assert(cur.skip(k as int) =~= seq!['.']);
            if k == 0 {
                return None;
            }
            assert(cur.take(k as int) =~= p@.take(k as int));
            end = k;
            continue;
        }
        if end - k == 2 && p[k] == '.' && p[k + 1] == '.' {
            assert(cur.skip(k as int) =~= seq!['.', '.']);
            return None;
        }
        proof {
            let piece = cur.skip(k as int);
            if piece =~= seq!['.'] {
                assert(piece.len() == 1 && piece[0] == '.');
                assert(p@[k as int] == piece[0]);
            }
            if piece =~= seq!['.', '.'] {
                assert(piece.len() == 2 && piece[0] == '.' && piece[1] == '.');
                assert(p@[k as int] == piece[0] && p@[k + 1] == piece[1]);
            }
            assert(end > k);
        }
        return Some((k, end));
    }
}

fn dot_in(name: &[char]) -> (d: usize)
    ensures
        d == last_dot(name@),
        d <= name@.len(),
{
    let mut i: usize = name.len();
    while i > 0
        invariant
            i <= name@.len(),
            forall|j: int| i <= j < name@.len() ==> name@[j] != '.',
        decreases i,
    {
        if name[i - 1] == '.' {
            proof {
                lemma_last_dot(name@, i - 1);
            }
            return i - 1;
        }
        i = i - 1;
    }
    proof {
        lemma_last_dot(name@, name@.len() as int);
    }
    name.len()
}

/// The extension of the file that `path` names.
pub fn extension_of(path: &str) -> (r: Option<Vec<char>>)
    ensures
        match r {
            Some(e) => extension(path@) == Some(e@),
            None => extension(path@) is None,
        },
{
    let p = chars_of(path);
    match name_range(p.as_slice()) {
        None => None,
        Some((a, b)) => {
            let name = vstd::slice::slice_subrange(p.as_slice(), a, b);
            let d: usize = dot_in(name);
            if d == 0 || d == name.len() {
                return None;
            }
            let e = vstd::slice::slice_subrange(name, d + 1, name.len());
            let v = vstd::slice::slice_to_vec(e);
            assert(v@ =~= name@.skip(d + 1));
            Some(v)
        },
    }
}

/// The file name of `path` without its extension.
pub fn file_stem_of(path: &str) -> (r: Option<String>)
    ensures
        match r {
            Some(s) => file_stem(path@) == Some(s@),
            None => file_stem(path@) is None,
        },
{
    let p = chars_of(path);
    match name_range(p.as_slice()) {
        None => None,
        Some((a, b)) => {
            let name = vstd::slice::slice_subrange(p.as_slice(), a, b);
            let d: usize = dot_in(name);
            if d == 0 || d == name.len() {
                return Some(string_of(name));
            }
            let e = vstd::slice::slice_subrange(name, 0, d);
            assert(e@ =~= name@.take(d as int));
            Some(string_of(e))
        },
    }
}

/// The steps of a path: the root as a slash of its own, then each piece. Empty pieces and
/// single dots do not count, except a dot at the very start.
pub open spec fn comps(p: Seq<char>) -> Seq<Seq<char>>
    decreases p.len(),
{
    if p.len() == 0 {
        Seq::empty()
    } else if p.last() == '/' {
        if p.len() == 1 {
            seq![seq!['/']]
        } else {
            comps(p.drop_last())
        }
    } else {
        let k = piece_start(p);
        let piece = p.skip(k);
        if 0 < k < p.len() {
            let rest = comps(p.take(k));
            if piece =~= seq!['.'] {
                rest
            } else {
                rest.push(piece)
            }
        } else {
            seq![piece]
        }
    }
}

/// The steps of a path; two paths with the same steps are the same path.
pub fn comps_of(path: &str) -> (r: Vec<Vec<char>>)
    ensures
        r@.map_values(|x: Vec<char>| x@) == comps(path@),
{
    let p = chars_of(path);
    assert(p@.take(p@.len() as int) =~= path@);
    comps_upto(p.as_slice(), p.len())
}

fn comps_upto(p: &[char], end: usize) -> (r: Vec<Vec<char>>)
    requires
        end <= p@.len(),
    ensures
        r@.map_values(|x: Vec<char>| x@) == comps(p@.take(end as int)),
    decreases end,
{
    let ghost cur = p@.take(end as int);
    if end == 0 {
        let r: Vec<Vec<char>> = Vec::new();
        assert(r@.map_values(|x: Vec<char>| x@) =~= Seq::empty());
        return r;
    }
    assert(cur.last() == p@[end - 1]);
    if p[end - 1] == '/' {
        if end == 1 {
            let mut root: Vec<char> = Vec::new();
            root.push('/');
            assert(root@ =~= seq!['/']);
            let mut r: Vec<Vec<char>> = Vec::new();
            r.push(root);
            assert(r@.map_values(|x: Vec<char>| x@) =~= seq![seq!['/']]);
            return r;
        }
        assert(cur.drop_last() =~= p@.take(end - 1));
        return comps_upto(p, end - 1);
    }
    let mut k: usize = end;
    while k > 0 && p[k - 1] != '/'
        invariant
            k <= end <= p@.len(),
            forall|i: int| k <= i < end ==> p@[i] != '/',
        decreases k,
    {
        k = k - 1;
    }
    proof {
        lemma_piece_start(cur, k as int);
    }
    let piece = vstd::slice::slice_subrange(p, k, end);
    assert(cur.skip(k as int) =~= piece@);
    if k == 0 {
        let v = vstd::slice::slice_to_vec(piece);
        let mut r: Vec<Vec<char>> = Vec::new();
        r.push(v);
        assert(r@.map_values(|x: Vec<char>| x@) =~= seq![piece@]);
        return r;
    }
    assert(k < end) by {
        if k == end {
            assert(p@[k - 1] == '/');
        }
    }
    assert(cur.take(k as int) =~= p@.take(k as int));
    let mut r = comps_upto(p, k);
    if end - k == 1 && p[k] == '.' {
        assert(piece@ =~= seq!['.']);
        return r;
    }
    proof {
        if piece@ =~= seq!['.'] {
            assert(piece@.len() == 1 && piece@[0] == '.');
            assert(p@[k as int] == piece@[0]);
        }
    }
    let ghost r0 = r@;
    let v = vstd::slice::slice_to_vec(piece);
    r.push(v);
    assert(r@.map_values(|x: Vec<char>| x@) =~= r0.map_values(|x: Vec<char>| x@).push(piece@));
    r
}

/// A name inside a folder; an absolute name stands for itself.
pub open spec fn joined_path(dir: Seq<char>, name: Seq<char>) -> Seq<char> {
    if name.len() > 0 && name[0] == '/' {
        name
    } else if dir.len() == 0 || dir.last() == '/' {
        dir + name
    } else {
        dir + "/"@ + name
    }
}

pub fn join_path(dir: &str, name: &str) -> (s: String)
    ensures
        s@ == joined_path(dir@, name@),
{
    let d = chars_of(dir);
    let n = chars_of(name);
    if n.len() > 0 && n[0] == '/' {
        return string_of(n.as_slice());
    }
    let mut s = string_of(d.as_slice());
    if d.len() > 0 && d[d.len() - 1] != '/' {
        s.append("/");
    }
    s.append(name);
    s
}

/// Where the stem of the file name ends.
pub open spec fn split_name(p: Seq<char>) -> Option<int> {
    match name_span(p) {
        Some((a, b)) => {
            let name = p.subrange(a, b);
            if splits(name) {
                Some(a + last_dot(name))
            } else {
                Some(b)
            }
        },
        None => None,
    }
}

/// Where the stem of the file name ends.
pub fn name_end(path: &str) -> (r: Option<usize>)
    ensures
        match r {
            Some(k) => k <= path@.len() && split_name(path@) == Some(k as int),
            None => split_name(path@) is None,
        },
{
    let p = chars_of(path);
    match name_range(p.as_slice()) {
        None => None,
        Some((a, b)) => {
            let name = vstd::slice::slice_subrange(p.as_slice(), a, b);
            let d: usize = dot_in(name);
            if d == 0 || d == name.len() {
                Some(b)
            } else {
                Some(a + d)
            }
        },
    }
}

proof fn lemma_name_of(dir: Seq<char>, name: Seq<char>)
    requires
        dir.len() > 0 ==> dir.last() == '/',
        name.len() > 0,
        forall|i: int| 0 <= i < name.len() ==> name[i] != '/',
        name != seq!['.'],
        name != seq!['.', '.'],
    ensures
        name_span(dir + name) == Some((dir.len() as int, (dir.len() + name.len()) as int)),
        file_name(dir + name) == Some(name),
{
    let p = dir + name;
    let k = dir.len() as int;
    assert(p.last() == name.last());
    assert(name[name.len() - 1] != '/');
    assert forall|i: int| k <= i < p.len() implies p[i] != '/' by {
        assert(p[i] == name[i - k]);
    }
    lemma_piece_start(p, k);
    assert(p.skip(k) =~= name);
    assert(p.subrange(k, p.len() as int) =~= name);
}

/// The extension is what stands behind the last dot of the file name, and the stem what stands
/// in front of it, wherever the file lies.
pub proof fn law_name_splits_at_its_last_dot(
    path: &str,
    dir: Seq<char>,
    stem: Seq<char>,
    ext: Seq<char>,
    e: Option<Vec<char>>,
    s: Option<String>,
    k: Option<usize>,
)
    requires
        call_ensures(extension_of, (path,), e),
        call_ensures(file_stem_of, (path,), s),
        call_ensures(name_end, (path,), k),
        path@ == dir + (stem + seq!['.'] + ext),
        dir.len() > 0 ==> dir.last() == '/',
        stem.len() > 0,
        forall|i: int| 0 <= i < stem.len() ==> stem[i] != '/',
        forall|i: int| 0 <= i < ext.len() ==> ext[i] != '/' && ext[i] != '.',
        stem != seq!['.'] || ext.len() > 0,
    ensures
        e matches Some(x) && x@ == ext,
        s matches Some(x) && x@ == stem,
        k matches Some(x) && x == dir.len() + stem.len(),
{
    let name = stem + seq!['.'] + ext;
    assert forall|i: int| 0 <= i < name.len() implies name[i] != '/' by {
        if i < stem.len() {
            assert(name[i] == stem[i]);
        } else if i > stem.len() {
            assert(name[i] == ext[i - stem.len() - 1]);
        }
    }
    if name =~= seq!['.', '.'] {
        assert(name.len() == 2);
        assert(stem.len() == 1);
        assert(name[0] == '.');
        assert(stem[0] == name[0]);
        assert(stem =~= seq!['.']);
    }
    assert(name.len() >= 2);
    lemma_name_of(dir, name);
    let d = stem.len() as int;
    assert(name[d] == '.');
    assert forall|i: int| d < i < name.len() implies name[i] != '.' by {
        assert(name[i] == ext[i - d - 1]);
    }
    lemma_last_dot(name, d);
    assert(name.skip(d + 1) =~= ext);
    assert(name.take(d) =~= stem);
    assert(path@.subrange(dir.len() as int, path@.len() as int) =~= name);
}

/// A file name without a dot, or with one at its start only, has no extension and is its own
/// stem.
pub proof fn law_name_without_dot_is_its_stem(
    path: &str,
    dir: Seq<char>,
    name: Seq<char>,
    e: Option<Vec<char>>,
    s: Option<String>,
    k: Option<usize>,
)
    requires
        call_ensures(extension_of, (path,), e),
        call_ensures(file_stem_of, (path,), s),
        call_ensures(name_end, (path,), k),
        path@ == dir + name,
        dir.len() > 0 ==> dir.last() == '/',
        name.len() > 0,
        name != seq!['.'],
        forall|i: int| 0 <= i < name.len() ==> name[i] != '/',
        forall|i: int| 0 < i < name.len() ==> name[i] != '.',
    ensures
        e is None,
        s matches Some(x) && x@ == name,
        k matches Some(x) && x == path@.len(),
{
    if name =~= seq!['.', '.'] {
        assert(name[1] == '.');
    }
    lemma_name_of(dir, name);
    if name[0] == '.' {
        lemma_last_dot(name, 0);
    } else {
        lemma_last_dot(name, name.len() as int);
    }
    assert(path@.subrange(dir.len() as int, path@.len() as int) =~= name);
}

/// A name is joined to a folder by one slash, an absolute name stands for itself.
pub proof fn law_joined_path(dir: &str, name: &str, s: String)
    requires
        call_ensures(join_path, (dir, name), s),
    ensures
        name@.len() > 0 && name@[0] == '/' ==> s@ == name@,
        (name@.len() == 0 || name@[0] != '/') && (dir@.len() == 0 || dir@.last() == '/') ==> s@
            == dir@ + name@,
        (name@.len() == 0 || name@[0] != '/') && dir@.len() > 0 && dir@.last() != '/' ==> s@
            == dir@ + seq!['/'] + name@,
{
    reveal_strlit("/");
    assert("/"@ =~= seq!['/']);
}

proof fn lemma_comps_slash(p: Seq<char>)
    requires
        p.len() > 0,
    ensures
        comps(p.push('/')) == comps(p),
{
    let q = p.push('/');
    assert(q.last() == '/');
    assert(q.drop_last() =~= p);
}

/// A file in a folder takes one step more than the folder, its name; slashes at the end of a
/// folder, and single dots behind it, do not count.
pub proof fn law_a_name_is_one_more_step(
    dir: &str,
    path: &str,
    name: Seq<char>,
    a: Vec<Vec<char>>,
    b: Vec<Vec<char>>,
    k: int,
)
    requires
        call_ensures(comps_of, (dir,), a),
        call_ensures(comps_of, (path,), b),
        dir@.len() > 0,
        path@ == dir@ + seq!['/'] + name,
        forall|i: int| 0 <= i < name.len() ==> name[i] != '/',
    ensures
        name.len() == 0 || name == seq!['.'] ==> b@.len() == a@.len(),
        name.len() > 0 && name != seq!['.'] ==> b@.len() == a@.len() + 1 && b@.last()@ == name,
        0 <= k < a@.len() ==> b@[k]@ == a@[k]@,
{
    let d = dir@;
    let p = path@;
    let va = a@.map_values(|x: Vec<char>| x@);
    let vb = b@.map_values(|x: Vec<char>| x@);
    assert(va == comps(d));
    assert(vb == comps(p));
    assert(forall|i: int| 0 <= i < a@.len() ==> va[i] == a@[i]@);
    assert(forall|i: int| 0 <= i < b@.len() ==> vb[i] == b@[i]@);
    lemma_comps_slash(d);
    if name.len() == 0 {
        assert(p =~= d.push('/'));
    } else {
        let m = d.len() + 1;
        assert(p.last() == name.last());
        assert(name[name.len() - 1] != '/');
        assert forall|i: int| m <= i < p.len() implies p[i] != '/' by {
            assert(p[i] == name[i - m]);
        }
        lemma_piece_start(p, m as int);
        assert(p.skip(m as int) =~= name);
        assert(p.take(m as int) =~= d.push('/'));
        if !(name =~= seq!['.']) {
            assert(vb =~= va.push(name));
            assert(vb.last() == b@.last()@);
        }
    }
    if 0 <= k < a@.len() {
        assert(vb[k] == va[k]);
    }
}

/// Slashes at the end of a path, and single dots behind them, change neither the name nor the
/// extension of what it leads to; a path that ends in two dots leads to no file.
pub proof fn law_trailing_steps_do_not_count(
    a: &str,
    b: &str,
    tail: Seq<char>,
    x: Option<Vec<char>>,
    y: Option<Vec<char>>,
    s: Option<String>,
    t: Option<String>,
)
    requires
        call_ensures(extension_of, (a,), x),
        call_ensures(extension_of, (b,), y),
        call_ensures(file_stem_of, (a,), s),
        call_ensures(file_stem_of, (b,), t),
        b@ == a@ + tail,
        a@.len() > 0,
        tail == seq!['/'] || tail == seq!['/', '.'],
    ensures
        x is Some <==> y is Some,
        x is Some ==> x->0@ == y->0@,
        s is Some <==> t is Some,
        s is Some ==> s->0@ == t->0@,
{
    let p = a@;
    let q = b@;
    let slashed = p.push('/');
    assert(slashed.drop_last() =~= p);
    assert(slashed.last() == '/');
    assert(name_span(slashed) == name_span(p));
    if tail == seq!['/'] {
        assert(q =~= slashed);
    } else {
        assert(q =~= slashed.push('.'));
        let k = slashed.len() as int;
        assert(q.last() == '.');
        lemma_piece_start(q, k);
        assert(q.skip(k) =~= seq!['.']);
        assert(q.take(k) =~= slashed);
        assert(name_span(q) == name_span(slashed));
    }
    lemma_name_span_inside(p);
    match name_span(p) {
        Some((m, n)) => {
            assert(q.subrange(m, n) =~= p.subrange(m, n));
        },
        None => {},
    }
}

proof fn lemma_name_span_inside(p: Seq<char>)
    ensures
        name_span(p) matches Some((a, b)) ==> 0 <= a <= b <= p.len(),
    decreases p.len(),
{
    if p.len() > 0 {
        if p.last() == '/' {
            lemma_name_span_inside(p.drop_last());
        } else {
            let k = piece_start(p);
            lemma_piece_inside(p);
            if p.skip(k) =~= seq!['.'] && 0 < k < p.len() {
                lemma_name_span_inside(p.take(k));
            }
        }
    }
}

proof fn lemma_piece_inside(p: Seq<char>)
    ensures
        0 <= piece_start(p) <= p.len(),
    decreases p.len(),
{
    if p.len() > 0 && p.last() != '/' {
        lemma_piece_inside(p.drop_last());
    }
}

/// A path that ends in two dots names no file.
pub proof fn law_parent_names_no_file(
    path: &str,
    dir: Seq<char>,
    x: Option<Vec<char>>,
    s: Option<String>,
    k: Option<usize>,
)
    requires
        call_ensures(extension_of, (path,), x),
        call_ensures(file_stem_of, (path,), s),
        call_ensures(name_end, (path,), k),
        path@ == dir + seq!['.', '.'],
        dir.len() > 0 ==> dir.last() == '/',
    ensures
        x is None,
        s is None,
        k is None,
{
    let p = path@;
    let d = dir.len() as int;
    assert(p.last() == '.');
    assert forall|i: int| d <= i < p.len() implies p[i] != '/' by {}
    lemma_piece_start(p, d);
    assert(p.skip(d) =~= seq!['.', '.']);
}

/// A single piece is one step, and so is the root; a name below the root takes the two.
pub proof fn law_steps_start_at_the_root(
    name: &str,
    rooted: &str,
    root: &str,
    a: Vec<Vec<char>>,
    b: Vec<Vec<char>>,
    c: Vec<Vec<char>>,
)
    requires
        call_ensures(comps_of, (name,), a),
        call_ensures(comps_of, (rooted,), b),
        call_ensures(comps_of, (root,), c),
        name@.len() > 0,
        name@ != seq!['.'],
        forall|i: int| 0 <= i < name@.len() ==> name@[i] != '/',
        rooted@ == seq!['/'] + name@,
        root@ == seq!['/'],
    ensures
        a@.len() == 1 && a@[0]@ == name@,
        c@.len() == 1 && c@[0]@ == seq!['/'],
        b@.len() == 2 && b@[0]@ == seq!['/'] && b@[1]@ == name@,
{
    let va = a@.map_values(|x: Vec<char>| x@);
    let vb = b@.map_values(|x: Vec<char>| x@);
    let vc = c@.map_values(|x: Vec<char>| x@);
    let n = name@;
    let r = rooted@;
    assert(n[n.len() - 1] != '/');
    lemma_piece_start(n, 0);
    assert(n.skip(0) =~= n);
    assert(va =~= seq![n]);
    assert(root@.last() == '/');
    assert(vc =~= seq![seq!['/']]);
    assert(r.last() == n.last());
    assert forall|i: int| 1 <= i < r.len() implies r[i] != '/' by {
        assert(r[i] == n[i - 1]);
    }
    lemma_piece_start(r, 1);
    assert(r.skip(1) =~= n);
    assert(r.take(1) =~= seq!['/']);
    assert(!(n =~= seq!['.']));
    assert(vb =~= seq![seq!['/']].push(n));
    assert(va.len() == a@.len() && vb.len() == b@.len() && vc.len() == c@.len());
    assert(va[0] == a@[0]@);
    assert(vb[0] == b@[0]@ && vb[1] == b@[1]@);
    assert(vc[0] == c@[0]@);
}

} // verus!
