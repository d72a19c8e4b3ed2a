//! Proving a playback chain bit-perfect: what a loopback captured against what was played.
use crate::format::StreamSpec;
use vstd::prelude::*;

verus! {

/// The alignment is found on at most this many frames.
pub const WINDOW_FRAMES: usize = 8192;

/// Frame `f` of a byte stream.
pub open spec fn frame(s: Seq<u8>, fb: nat, f: int) -> Seq<u8> {
    s.subrange(f * fb, (f + 1) * fb)
}

/// The whole frames in a byte stream.
pub open spec fn frames(s: Seq<u8>, fb: nat) -> nat {
    s.len() / fb
}

/// Frame `f` is not all zero.
pub open spec fn loud(s: Seq<u8>, fb: nat, f: int) -> bool {
    exists|i: int| 0 <= i < fb && #[trigger] s[f * fb + i] != 0
}

/// The first frame from `f` on that is not all zero, or the frame count.
pub open spec fn first_loud(s: Seq<u8>, fb: nat, f: int) -> int
    decreases frames(s, fb) - f,
{
    if f >= frames(s, fb) || f < 0 {
        frames(s, fb) as int
    } else if loud(s, fb, f) {
        f
    } else {
        first_loud(s, fb, f + 1)
    }
}

/// The frame where the comparison is anchored: the first that is not silent.
pub open spec fn anchor(s: Seq<u8>, fb: nat) -> int {
    if first_loud(s, fb, 0) == frames(s, fb) {
        0
    } else {
        first_loud(s, fb, 0)
    }
}

/// The frames behind the anchor that are looked for in the capture.
pub open spec fn window(s: Seq<u8>, fb: nat) -> int {
    let n = frames(s, fb) - anchor(s, fb);
    if n <= WINDOW_FRAMES {
        n
    } else {
        WINDOW_FRAMES as int
    }
}

/// The capture shows the window when read `d` frames late.
pub open spec fn aligned(played: Seq<u8>, captured: Seq<u8>, fb: nat, d: int) -> bool {
    let a = anchor(played, fb);
    let w = window(played, fb);
    captured.subrange((a + d) * fb, (a + d + w) * fb) == played.subrange(a * fb, (a + w) * fb)
}

/// The largest delay that leaves the whole window inside the capture.
pub open spec fn max_delay(played: Seq<u8>, captured: Seq<u8>, fb: nat) -> int {
    let used = anchor(played, fb) + window(played, fb);
    if frames(captured, fb) >= used {
        frames(captured, fb) - used
    } else {
        0
    }
}

proof fn lemma_frames(s: Seq<u8>, fb: nat)
    requires
        fb > 0,
    ensures
        frames(s, fb) * fb <= s.len(),
        frames(s, fb) <= s.len(),
{
    vstd::arithmetic::div_mod::lemma_fundamental_div_mod(s.len() as int, fb as int);
    assert(fb * frames(s, fb) == frames(s, fb) * fb) by (nonlinear_arith);
    assert(frames(s, fb) <= frames(s, fb) * fb) by (nonlinear_arith)
        requires
            fb >= 1,
            frames(s, fb) >= 0,
    ;
}

proof fn lemma_inside(n: int, m: int, fb: int, len: int)
    requires
        0 <= n <= m,
        m * fb <= len,
        fb > 0,
    ensures
        0 <= n * fb <= m * fb,
        n * fb <= len,
{
    assert(0 <= n * fb <= m * fb) by (nonlinear_arith)
        requires
            0 <= n <= m,
            fb > 0,
    ;
}

proof fn lemma_anchor(s: Seq<u8>, fb: nat, f: int)
    requires
        0 <= f <= frames(s, fb),
        fb > 0,
    ensures
        f <= first_loud(s, fb, f) <= frames(s, fb),
    decreases frames(s, fb) - f,
{
    if f < frames(s, fb) && !loud(s, fb, f) {
        lemma_anchor(s, fb, f + 1);
    }
}

fn bytes_eq(a: &[u8], b: &[u8]) -> (r: bool)
    ensures
        r == (a@ == b@),
{
    if a.len() != b.len() {
        return false;
    }
    for i in 0..a.len()
        invariant
            a@.len() == b@.len(),
            forall|j: int| 0 <= j < i ==> a@[j] == b@[j],
    {
        if a[i] != b[i] {
            return false;
        }
    }
    assert(a@ =~= b@);
    true
}

fn is_loud(s: &[u8], fb: usize, f: usize) -> (r: bool)
    requires
        fb > 0,
        f < frames(s@, fb as nat),
    ensures
        r == loud(s@, fb as nat, f as int),
{
    proof {
        lemma_frames(s@, fb as nat);
        lemma_inside(f + 1, frames(s@, fb as nat) as int, fb as int, s@.len() as int);
        assert((f + 1) * fb == f * fb + fb) by (nonlinear_arith);
        assert(f * fb >= 0) by (nonlinear_arith)
            requires
                f >= 0,
                fb >= 0,
        ;
    }
    let len: usize = s.len();
    let base: usize = f * fb;
    for i in 0..fb
        invariant
            len == s@.len(),
            base == f * fb,
            base + fb <= s@.len(),
            forall|j: int| 0 <= j < i ==> #[trigger] s@[f * fb + j] == 0,
    {
        if s[base + i] != 0 {
            assert(s@[f * fb + i as int] != 0);
            return true;
        }
    }
    false
}

fn find_anchor(s: &[u8], fb: usize) -> (a: usize)
    requires
        fb > 0,
    ensures
        a == anchor(s@, fb as nat),
        a <= frames(s@, fb as nat),
{
    let pf: usize = s.len() / fb;
    let mut f: usize = 0;
    while f < pf
        invariant
            fb > 0,
            pf == frames(s@, fb as nat),
            f <= pf,
            first_loud(s@, fb as nat, 0) == first_loud(s@, fb as nat, f as int),
        decreases pf - f,
    {
        if is_loud(s, fb, f) {
            return f;
        }
        f = f + 1;
    }
    0
}

/// The delay, in frames, at which the capture first shows the played stream.
pub fn find_alignment(played: &[u8], captured: &[u8], frame_bytes: usize) -> (r: Option<usize>)
    requires
        frame_bytes > 0,
        frames(captured@, frame_bytes as nat) >= anchor(played@, frame_bytes as nat) + window(
            played@,
            frame_bytes as nat,
        ),
    ensures
        match r {
            Some(d) => {
                &&& d <= max_delay(played@, captured@, frame_bytes as nat)
                &&& aligned(played@, captured@, frame_bytes as nat, d as int)
                &&& forall|e: int|
                    0 <= e < d ==> !aligned(played@, captured@, frame_bytes as nat, e)
            },
            None => forall|e: int|
                0 <= e <= max_delay(played@, captured@, frame_bytes as nat) ==> !aligned(
                    played@,
                    captured@,
                    frame_bytes as nat,
                    e,
                ),
        },
{
    let fb: usize = frame_bytes;
    let pf: usize = played.len() / fb;
    let cf: usize = captured.len() / fb;
    let a: usize = find_anchor(played, fb);
    let w: usize = if pf - a <= WINDOW_FRAMES {
        pf - a
    } else {
        WINDOW_FRAMES
    };
    let max_d: usize = cf - (a + w);
    proof {
        lemma_frames(played@, fb as nat);
        lemma_frames(captured@, fb as nat);
        lemma_inside(a as int, pf as int, fb as int, played@.len() as int);
        lemma_inside(a + w, pf as int, fb as int, played@.len() as int);
        lemma_inside(a as int, a + w, fb as int, (a + w) * fb);
    }
    let pat = vstd::slice::slice_subrange(played, a * fb, (a + w) * fb);
    let mut d: usize = 0;
    loop
        invariant
            fb == frame_bytes,
            fb > 0,
            a == anchor(played@, fb as nat),
            w == window(played@, fb as nat),
            cf == frames(captured@, fb as nat),
            cf * fb <= captured@.len() <= usize::MAX,
            max_d == cf - (a + w),
            max_d == max_delay(played@, captured@, fb as nat),
            d <= max_d,
            pat@ == played@.subrange(a * fb, (a + w) * fb),
            forall|e: int| 0 <= e < d ==> !aligned(played@, captured@, fb as nat, e),
        decreases max_d - d,
    {
        proof {
            lemma_inside(a + d + w, cf as int, fb as int, captured@.len() as int);
            lemma_inside(a + d, a + d + w, fb as int, (a + d + w) * fb);
        }
        let part = vstd::slice::slice_subrange(captured, (a + d) * fb, (a + d + w) * fb);
        if bytes_eq(part, pat) {
            return Some(d);
        }
        if d == max_d {
            return None;
        }
        d = d + 1;
    }
}

/// The frames among the first `n` that the capture, read `delay` frames late, has otherwise.
pub open spec fn differing(played: Seq<u8>, captured: Seq<u8>, fb: nat, delay: int, n: nat) -> nat
    decreases n,
{
    if n == 0 {
        0
    } else {
        differing(played, captured, fb, delay, (n - 1) as nat) + if frame(played, fb, n - 1)
            == frame(captured, fb, n - 1 + delay) {
            0nat
        } else {
            1nat
        }
    }
}

/// The frames that a capture of the same length can show, given the delay.
pub open spec fn comparable(played: Seq<u8>, fb: nat, delay: nat) -> nat {
    if frames(played, fb) >= delay {
        (frames(played, fb) - delay) as nat
    } else {
        0
    }
}

/// Compares frame by frame: how many differ, the first that does, how many were compared.
pub fn diff_frames(played: &[u8], captured: &[u8], frame_bytes: usize, delay: usize) -> (r: (
    usize,
    Option<usize>,
    usize,
))
    requires
        frame_bytes > 0,
        comparable(played@, frame_bytes as nat, delay as nat) > 0 ==> frames(
            captured@,
            frame_bytes as nat,
        ) >= frames(played@, frame_bytes as nat),
    ensures
        r.2 == comparable(played@, frame_bytes as nat, delay as nat),
        r.0 == differing(played@, captured@, frame_bytes as nat, delay as int, r.2 as nat),
        r.0 <= r.2,
        r.1 is None <==> r.0 == 0,
        r.1 is None <==> forall|f: int|
            0 <= f < r.2 ==> #[trigger] frame(played@, frame_bytes as nat, f) == frame(
                captured@,
                frame_bytes as nat,
                f + delay,
            ),
        r.1 matches Some(f) ==> {
            &&& f < r.2
            &&& frame(played@, frame_bytes as nat, f as int) != frame(
                captured@,
                frame_bytes as nat,
                f + delay,
            )
            &&& forall|g: int|
                0 <= g < f ==> #[trigger] frame(played@, frame_bytes as nat, g) == frame(
                    captured@,
                    frame_bytes as nat,
                    g + delay,
                )
        },
{
    let fb: usize = frame_bytes;
    let pf: usize = played.len() / fb;
    let n: usize = if pf >= delay {
        pf - delay
    } else {
        0
    };
    let mut diff: usize = 0;
    let mut first: Option<usize> = None;
    proof {
        lemma_frames(played@, fb as nat);
        lemma_frames(captured@, fb as nat);
    }
    let ghost cf = frames(captured@, fb as nat);
    let cap_len: usize = captured.len();
    assert(cap_len == captured@.len());
    let mut f: usize = 0;
    while f < n
        invariant
            fb == frame_bytes,
            fb > 0,
            f <= n,
            n == comparable(played@, fb as nat, delay as nat),
            pf == frames(played@, fb as nat),
            pf * fb <= played@.len() <= usize::MAX,
            n > 0 ==> cf >= pf,
            cf * fb <= captured@.len() <= usize::MAX,
            n > 0 ==> n + delay == pf,
            diff <= f,
            diff == differing(played@, captured@, fb as nat, delay as int, f as nat),
            first is None <==> diff == 0,
            first is None ==> forall|g: int|
                0 <= g < f ==> #[trigger] frame(played@, fb as nat, g) == frame(
                    captured@,
                    fb as nat,
                    g + delay,
                ),
            first matches Some(k) ==> {
                &&& k < f
                &&& frame(played@, fb as nat, k as int) != frame(captured@, fb as nat, k + delay)
                &&& forall|g: int|
                    0 <= g < k ==> #[trigger] frame(played@, fb as nat, g) == frame(
                        captured@,
                        fb as nat,
                        g + delay,
                    )
            },
        decreases n - f,
    {
        proof {
            lemma_inside(f + 1, pf as int, fb as int, played@.len() as int);
            lemma_inside(f as int, f + 1, fb as int, (f + 1) * fb);
            lemma_inside(f + delay + 1, cf as int, fb as int, captured@.len() as int);
            lemma_inside(f + delay, f + delay + 1, fb as int, (f + delay + 1) * fb);
        }
        let p = vstd::slice::slice_subrange(played, f * fb, (f + 1) * fb);
        let c = vstd::slice::slice_subrange(captured, (f + delay) * fb, (f + delay + 1) * fb);
        assert(p@ == frame(played@, fb as nat, f as int));
        assert(c@ == frame(captured@, fb as nat, f + delay));
        if !bytes_eq(p, c) {
            if first.is_none() {
                first = Some(f);
            }
            diff = diff + 1;
        }
        f = f + 1;
    }
    (diff, first, n)
}

/// The outcome of a loopback comparison.
#[derive(Clone, Copy, Debug, PartialEq, Eq, Structural)]
pub enum Verdict {
    /// The capture never shows the played stream.
    NoAlignment,
    /// Every compared frame is identical.
    Match { frames: usize, delay: usize },
    Differs { diff: usize, frames: usize, first: usize, delay: usize },
}

/// Aligns the capture with what was played and compares them. The capture has to be long
/// enough to look for the start of what was played and, where that is found, for the rest.
pub fn compare(played: &[u8], captured: &[u8], frame_bytes: usize) -> (v: Verdict)
    requires
        frame_bytes > 0,
        frames(captured@, frame_bytes as nat) >= anchor(played@, frame_bytes as nat) + window(
            played@,
            frame_bytes as nat,
        ),
        frames(captured@, frame_bytes as nat) >= frames(played@, frame_bytes as nat) || forall|
            e: int,
        |
            0 <= e <= max_delay(played@, captured@, frame_bytes as nat) ==> !aligned(
                played@,
                captured@,
                frame_bytes as nat,
                e,
            ),
    ensures
        ({
            let fb = frame_bytes as nat;
            match v {
                Verdict::NoAlignment => forall|e: int|
                    0 <= e <= max_delay(played@, captured@, fb) ==> !aligned(
                        played@,
                        captured@,
                        fb,
                        e,
                    ),
                Verdict::Match { frames, delay } => {
                    &&& first_alignment(played@, captured@, fb, delay as int)
                    &&& frames == comparable(played@, fb, delay as nat)
                    &&& forall|f: int|
                        0 <= f < frames ==> #[trigger] frame(played@, fb, f) == frame(
                            captured@,
                            fb,
                            f + delay,
                        )
                },
                Verdict::Differs { diff, frames, first, delay } => {
                    &&& first_alignment(played@, captured@, fb, delay as int)
                    &&& frames == comparable(played@, fb, delay as nat)
                    &&& diff == differing(played@, captured@, fb, delay as int, frames as nat)
                    &&& diff > 0
                    &&& first < frames
                    &&& frame(played@, fb, first as int) != frame(captured@, fb, first + delay)
                    &&& forall|g: int|
                        0 <= g < first ==> #[trigger] frame(played@, fb, g) == frame(
                            captured@,
                            fb,
                            g + delay,
                        )
                },
            }
        }),
{
    let d: usize = match find_alignment(played, captured, frame_bytes) {
        None => return Verdict::NoAlignment,
        Some(d) => d,
    };
    let (diff, first, frames) = diff_frames(played, captured, frame_bytes, d);
    match first {
        None => Verdict::Match { frames, delay: d },
        Some(f) => Verdict::Differs { diff, frames, first: f, delay: d },
    }
}

/// `d` is the smallest delay at which the capture shows the played stream.
pub open spec fn first_alignment(played: Seq<u8>, captured: Seq<u8>, fb: nat, d: int) -> bool {
    &&& 0 <= d <= max_delay(played, captured, fb)
    &&& aligned(played, captured, fb, d)
    &&& forall|e: int| 0 <= e < d ==> !aligned(played, captured, fb, e)
}

/// A capture that is the played stream itself aligns at once and has no differing frame.
pub proof fn law_identical_streams_match(s: Seq<u8>, fb: nat)
    requires
        fb > 0,
    ensures
        first_alignment(s, s, fb, 0),
        differing(s, s, fb, 0, comparable(s, fb, 0)) == 0,
{
    lemma_anchor(s, fb, 0);
    assert(aligned(s, s, fb, 0));
    lemma_no_difference(s, fb, comparable(s, fb, 0));
}

proof fn lemma_no_difference(s: Seq<u8>, fb: nat, n: nat)
    ensures
        differing(s, s, fb, 0, n) == 0,
    decreases n,
{
    if n > 0 {
        lemma_no_difference(s, fb, (n - 1) as nat);
    }
}

/// How much of a chunk to write when at most `cap` bytes may be written in all and `written`
/// have been; nothing once the limit is reached.
pub fn within_cap(cap: Option<u64>, written: u64, len: usize) -> (r: Option<usize>)
    ensures
        r == (match cap {
            None => Some(len),
            Some(c) => if c <= written {
                None
            } else if len > c - written {
                Some((c - written) as usize)
            } else {
                Some(len)
            },
        }),
{
    match cap {
        None => Some(len),
        Some(c) => if c <= written {
            None
        } else if len as u64 > c - written {
            Some((c - written) as usize)
        } else {
            Some(len)
        },
    }
}

/// The wire of a queue whose tracks are to follow each other without a gap: that of its first
/// track. A track with another one is refused.
pub fn queue_wire(first: Option<StreamSpec>, next: StreamSpec) -> (r: Result<
    StreamSpec,
    StreamSpec,
>)
    ensures
        r == (match first {
            None => Ok::<StreamSpec, StreamSpec>(next),
            Some(s) => if s.wire_eq(next) {
                Ok(s)
            } else {
                Err(s)
            },
        }),
{
    match first {
        None => Ok(next),
        Some(s) => if s.same_wire(&next) {
            Ok(s)
        } else {
            Err(s)
        },
    }
}

/// Frame `f` of what was played stands, byte for byte, `delay` frames later in the capture.
pub open spec fn shows(played: Seq<u8>, captured: Seq<u8>, fb: nat, f: int, delay: int) -> bool {
    forall|b: int|
        0 <= b < fb ==> #[trigger] played[f * fb + b] == captured[(f + delay) * fb + b]
}

proof fn lemma_shows(played: Seq<u8>, captured: Seq<u8>, fb: nat, f: int, delay: int)
    requires
        fb > 0,
        0 <= f < played.len() / fb,
        0 <= f + delay < captured.len() / fb,
    ensures
        shows(played, captured, fb, f, delay) <==> frame(played, fb, f) == frame(
            captured,
            fb,
            f + delay,
        ),
        frame(played, fb, f).len() == fb,
        0 <= f * fb,
        (f + 1) * fb <= played.len(),
        (f + delay + 1) * fb <= captured.len(),
{
    lemma_frames(played, fb);
    lemma_frames(captured, fb);
    lemma_inside(f + 1, frames(played, fb) as int, fb as int, played.len() as int);
    lemma_inside(f + delay + 1, frames(captured, fb) as int, fb as int, captured.len() as int);
    lemma_inside(f, frames(played, fb) as int, fb as int, played.len() as int);
    lemma_inside(f + delay, frames(captured, fb) as int, fb as int, captured.len() as int);
    assert((f + 1) * fb == f * fb + fb) by (nonlinear_arith);
    assert((f + delay + 1) * fb == (f + delay) * fb + fb) by (nonlinear_arith);
    let a = frame(played, fb, f);
    let c = frame(captured, fb, f + delay);
    if shows(played, captured, fb, f, delay) {
        assert forall|b: int| 0 <= b < fb implies a[b] == c[b] by {
            assert(a[b] == played[f * fb + b]);
            assert(c[b] == captured[(f + delay) * fb + b]);
        }
        assert(a =~= c);
    }
    if a == c {
        assert forall|b: int| 0 <= b < fb implies #[trigger] played[f * fb + b] == captured[(f
            + delay) * fb + b] by {
            assert(a[b] == played[f * fb + b]);
            assert(c[b] == captured[(f + delay) * fb + b]);
        }
    }
}

/// A match means that nothing differs: every frame of what was played that has a place in a
/// capture of its length stands there, `delay` frames later, however long the streams are.
pub proof fn law_match_means_equal(
    played: &[u8],
    captured: &[u8],
    fb: usize,
    n: usize,
    delay: usize,
)
    requires
        call_ensures(
            compare,
            (played, captured, fb),
            (Verdict::Match { frames: n, delay }),
        ),
        fb > 0,
        captured@.len() / fb as nat >= played@.len() / fb as nat,
    ensures
        forall|f: int|
            0 <= f && f + delay < played@.len() / fb as nat ==> #[trigger] shows(
                played@,
                captured@,
                fb as nat,
                f,
                delay as int,
            ),
        delay <= played@.len() / fb as nat ==> n + delay == played@.len() / fb as nat,
        delay > played@.len() / fb as nat ==> n == 0,
        delay == 0 && captured@.len() == played@.len() && played@.len() % fb as nat == 0
            ==> captured@ == played@,
{
    let fb = fb as nat;
    let p = played@;
    let c = captured@;
    assert forall|f: int| 0 <= f && f + delay < p.len() / fb implies #[trigger] shows(
        p,
        c,
        fb,
        f,
        delay as int,
    ) by {
        assert(f < n);
        lemma_shows(p, c, fb, f, delay as int);
    }
    if delay == 0 && c.len() == p.len() && p.len() % fb == 0 {
        vstd::arithmetic::div_mod::lemma_fundamental_div_mod(p.len() as int, fb as int);
        assert forall|i: int| 0 <= i < p.len() implies p[i] == c[i] by {
            vstd::arithmetic::div_mod::lemma_fundamental_div_mod(i, fb as int);
            let f = i / fb as int;
            let b = i % fb as int;
            assert(f * fb == fb * f) by (nonlinear_arith);
            assert(0 <= f < p.len() / fb) by (nonlinear_arith)
                requires
                    fb > 0,
                    0 <= i < p.len(),
                    i == fb * f + b,
                    0 <= b < fb,
                    p.len() == fb * (p.len() as int / fb as int),
            ;
            assert(shows(p, c, fb, f, 0));
            assert((f + 0) * fb == f * fb);
            assert(p[f * fb + b] == c[(f + 0) * fb + b]);
        }
        assert(c =~= p);
    }
}

/// The frames among the first `n` of what was played that the capture does not show.
pub open spec fn unlike(played: Seq<u8>, captured: Seq<u8>, fb: nat, delay: int, n: int) -> Set<int> {
    Set::new(|f: int| 0 <= f < n && !shows(played, captured, fb, f, delay))
}

proof fn lemma_unlike(played: Seq<u8>, captured: Seq<u8>, fb: nat, delay: int, n: nat)
    requires
        fb > 0,
        delay >= 0,
        n <= played.len() / fb,
        n == 0 || n + delay <= captured.len() / fb,
    ensures
        unlike(played, captured, fb, delay, n as int).finite(),
        unlike(played, captured, fb, delay, n as int).len() == differing(
            played,
            captured,
            fb,
            delay,
            n,
        ),
    decreases n,
{
    let s = unlike(played, captured, fb, delay, n as int);
    if n == 0 {
        assert(s =~= Set::empty());
    } else {
        let m = (n - 1) as nat;
        let t = unlike(played, captured, fb, delay, m as int);
        lemma_unlike(played, captured, fb, delay, m);
        lemma_shows(played, captured, fb, m as int, delay);
        if shows(played, captured, fb, m as int, delay) {
            assert(s =~= t);
        } else {
            assert(s =~= t.insert(m as int));
            assert(!t.contains(m as int));
        }
    }
}

/// The comparison covers every frame that has a place in a capture of the same length. It
/// counts the frames that are not shown, and names the first of them.
pub proof fn law_differences_are_counted(
    played: &[u8],
    captured: &[u8],
    fb: usize,
    delay: usize,
    r: (usize, Option<usize>, usize),
)
    requires
        call_ensures(diff_frames, (played, captured, fb, delay), r),
        fb > 0,
        captured@.len() / fb as nat >= played@.len() / fb as nat,
    ensures
        delay <= played@.len() / fb as nat ==> r.2 + delay == played@.len() / fb as nat,
        delay > played@.len() / fb as nat ==> r.2 == 0,
        r.0 == unlike(played@, captured@, fb as nat, delay as int, r.2 as int).len(),
        r.1 is None <==> r.0 == 0,
        r.1 matches Some(f) ==> {
            &&& f < r.2
            &&& !shows(played@, captured@, fb as nat, f as int, delay as int)
            &&& forall|g: int|
                0 <= g < f ==> #[trigger] shows(played@, captured@, fb as nat, g, delay as int)
        },
{
    let n = r.2 as nat;
    lemma_unlike(played@, captured@, fb as nat, delay as int, n);
    if let Some(f) = r.1 {
        lemma_shows(played@, captured@, fb as nat, f as int, delay as int);
        assert forall|g: int| 0 <= g < f implies #[trigger] shows(
            played@,
            captured@,
            fb as nat,
            g,
            delay as int,
        ) by {
            lemma_shows(played@, captured@, fb as nat, g, delay as int);
        }
    }
}

/// A verdict that the streams differ says where first, and in how many of the frames that
/// have a place in a capture of the same length.
pub proof fn law_difference_is_real(
    played: &[u8],
    captured: &[u8],
    fb: usize,
    diff: usize,
    n: usize,
    first: usize,
    delay: usize,
)
    requires
        call_ensures(
            compare,
            (played, captured, fb),
            (Verdict::Differs { diff, frames: n, first, delay }),
        ),
        fb > 0,
        captured@.len() / fb as nat >= played@.len() / fb as nat,
    ensures
        n + delay == played@.len() / fb as nat,
        first < n,
        !shows(played@, captured@, fb as nat, first as int, delay as int),
        forall|g: int|
            0 <= g < first ==> #[trigger] shows(played@, captured@, fb as nat, g, delay as int),
        diff == unlike(played@, captured@, fb as nat, delay as int, n as int).len(),
        diff > 0,
{
    lemma_unlike(played@, captured@, fb as nat, delay as int, n as nat);
    lemma_shows(played@, captured@, fb as nat, first as int, delay as int);
    assert forall|g: int| 0 <= g < first implies #[trigger] shows(
        played@,
        captured@,
        fb as nat,
        g,
        delay as int,
    ) by {
        lemma_shows(played@, captured@, fb as nat, g, delay as int);
    }
}

proof fn lemma_first_loud(s: Seq<u8>, fb: nat, f: int, k: int)
    requires
        0 <= f <= k < frames(s, fb),
        fb > 0,
        loud(s, fb, k),
        forall|g: int| f <= g < k ==> !loud(s, fb, g),
    ensures
        first_loud(s, fb, f) == k,
    decreases k - f,
{
    if f < k {
        assert(!loud(s, fb, f));
        lemma_first_loud(s, fb, f + 1, k);
    }
}

/// Streams are aligned by the sound: from the first frame with a byte that is not zero on, a
/// full window of what was played stands in the capture at the delay that is found, or all
/// that was played if it is shorter than a window.
pub proof fn law_alignment_shows_the_start(
    played: &[u8],
    captured: &[u8],
    fb: usize,
    start: int,
    d: usize,
    f: int,
)
    requires
        call_ensures(find_alignment, (played, captured, fb), Some(d)),
        fb > 0,
        start + 8192 <= captured@.len() / fb as nat || played@.len() / fb as nat <= captured@.len()
            / fb as nat,
        0 <= start < played@.len() / fb as nat,
        exists|b: int| 0 <= b < fb && #[trigger] played@[start * fb + b] != 0,
        forall|g: int, b: int|
            0 <= g < start && 0 <= b < fb ==> #[trigger] played@[g * fb + b] == 0,
        start <= f < start + 8192,
        f < played@.len() / fb as nat,
    ensures
        f + d < captured@.len() / fb as nat,
        shows(played@, captured@, fb as nat, f, d as int),
{
    let p = played@;
    let c = captured@;
    let fb = fb as nat;
    assert(loud(p, fb, start));
    assert forall|g: int| 0 <= g < start implies !loud(p, fb, g) by {
        assert forall|b: int| 0 <= b < fb implies #[trigger] p[g * fb + b] == 0 by {}
    }
    lemma_first_loud(p, fb, 0, start);
    let a = anchor(p, fb);
    let w = window(p, fb);
    assert(a == start);
    assert(f < a + w);
    assert(aligned(p, c, fb, d as int));
    lemma_frames(p, fb);
    lemma_frames(c, fb);
    lemma_inside(a, frames(p, fb) as int, fb as int, p.len() as int);
    lemma_inside(a + w, frames(p, fb) as int, fb as int, p.len() as int);
    lemma_inside(a + d + w, frames(c, fb) as int, fb as int, c.len() as int);
    lemma_inside(a + d, frames(c, fb) as int, fb as int, c.len() as int);
    lemma_shows(p, c, fb, f, d as int);
    let x = c.subrange((a + d) * fb, (a + d + w) * fb);
    let y = p.subrange(a * fb, (a + w) * fb);
    assert(x == y);
    assert forall|b: int| 0 <= b < fb implies #[trigger] p[f * fb + b] == c[(f + d) * fb + b] by {
        let i = (f - a) * fb + b;
        assert(0 <= i < w * fb) by (nonlinear_arith)
            requires
                i == (f - a) * fb + b,
                0 <= b < fb,
                0 <= f - a,
                f - a + 1 <= w,
        ;
        assert(i + a * fb == f * fb + b) by (nonlinear_arith)
            requires
                i == (f - a) * fb + b,
        ;
        assert(i + (a + d) * fb == (f + d) * fb + b) by (nonlinear_arith)
            requires
                i == (f - a) * fb + b,
        ;
        assert((a + w) * fb == a * fb + w * fb) by (nonlinear_arith);
        assert((a + d + w) * fb == (a + d) * fb + w * fb) by (nonlinear_arith);
        assert(x[i] == y[i]);
    }
}

proof fn lemma_whole_shown(played: Seq<u8>, captured: Seq<u8>, fb: nat, k: int)
    requires
        fb > 0,
        k >= 0,
        played.len() / fb + k <= captured.len() / fb,
        forall|f: int|
            0 <= f < played.len() / fb ==> #[trigger] shows(played, captured, fb, f, k),
    ensures
        0 <= k <= max_delay(played, captured, fb),
        aligned(played, captured, fb, k),
{
    let a = anchor(played, fb);
    let w = window(played, fb);
    lemma_anchor(played, fb, 0);
    lemma_frames(played, fb);
    lemma_frames(captured, fb);
    lemma_inside(a, frames(played, fb) as int, fb as int, played.len() as int);
    lemma_inside(a + w, frames(played, fb) as int, fb as int, played.len() as int);
    lemma_inside(a + k + w, frames(captured, fb) as int, fb as int, captured.len() as int);
    lemma_inside(a + k, frames(captured, fb) as int, fb as int, captured.len() as int);
    let x = captured.subrange((a + k) * fb, (a + k + w) * fb);
    let y = played.subrange(a * fb, (a + w) * fb);
    assert((a + w) * fb == a * fb + w * fb) by (nonlinear_arith);
    assert((a + k + w) * fb == (a + k) * fb + w * fb) by (nonlinear_arith);
    assert forall|i: int| 0 <= i < w * fb implies x[i] == y[i] by {
        vstd::arithmetic::div_mod::lemma_fundamental_div_mod(i, fb as int);
        let q = i / fb as int;
        let b = i % fb as int;
        let f = a + q;
        assert(0 <= q < w) by (nonlinear_arith)
            requires
                fb > 0,
                0 <= i < w * fb,
                i == fb * q + b,
                0 <= b < fb,
        ;
        assert(shows(played, captured, fb, f, k));
        assert(f * fb + b == a * fb + i) by (nonlinear_arith)
            requires
                f == a + q,
                i == fb * q + b,
        ;
        assert((f + k) * fb + b == (a + k) * fb + i) by (nonlinear_arith)
            requires
                f == a + q,
                i == fb * q + b,
        ;
        assert(played[f * fb + b] == captured[(f + k) * fb + b]);
    }
    assert(x =~= y);
}

/// A capture that shows all that was played, `k` frames late, is recognised, at that delay or
/// an earlier one.
pub proof fn law_late_capture_is_found(
    played: &[u8],
    captured: &[u8],
    fb: usize,
    k: int,
    r: Option<usize>,
    v: Verdict,
)
    requires
        call_ensures(find_alignment, (played, captured, fb), r),
        call_ensures(compare, (played, captured, fb), v),
        fb > 0,
        k >= 0,
        played@.len() / fb as nat + k <= captured@.len() / fb as nat,
        forall|f: int|
            0 <= f < played@.len() / fb as nat ==> #[trigger] shows(
                played@,
                captured@,
                fb as nat,
                f,
                k,
            ),
    ensures
        r matches Some(d) && d <= k,
        match v {
            Verdict::NoAlignment => k < 0,
            Verdict::Match { frames, delay } => Some(delay) == r,
            Verdict::Differs { diff, frames, first, delay } => Some(delay) == r,
        },
        k == 0 ==> v == (Verdict::Match {
            frames: (played@.len() / fb as nat) as usize,
            delay: 0,
        }),
{
    let p = played@;
    let c = captured@;
    lemma_whole_shown(p, c, fb as nat, k);
    lemma_frames(p, fb as nat);
    assert(aligned(p, c, fb as nat, k));
    assert(k <= max_delay(p, c, fb as nat));
    let args = (played, captured, fb);
    assert(aligned(args.0@, args.1@, args.2 as nat, k));
    if k == 0 {
        match v {
            Verdict::Differs { diff, frames, first, delay } => {
                assert(delay == 0);
                lemma_shows(p, c, fb as nat, first as int, 0);
                assert(shows(p, c, fb as nat, first as int, 0));
            },
            _ => {},
        }
    }
}

/// No more than the cap is ever written, all of a chunk as long as the cap allows it, and
/// nothing is asked for once the cap is reached.
pub proof fn law_cap_is_exact(cap: Option<u64>, written: u64, len: usize, r: Option<usize>)
    requires
        call_ensures(within_cap, (cap, written, len), r),
    ensures
        cap is None ==> r == Some(len),
        cap matches Some(c) ==> {
            &&& r is None <==> written >= c
            &&& r matches Some(n) ==> {
                &&& n <= len
                &&& written + n <= c
                &&& n < len ==> written + n == c
            }
        },
{
}

/// A queue keeps the wire of its first track; a track joins it only at the same rate, with
/// the same channels and in the same format.
pub proof fn law_queue_keeps_one_wire(
    first: Option<StreamSpec>,
    next: StreamSpec,
    r: Result<StreamSpec, StreamSpec>,
)
    requires
        call_ensures(queue_wire, (first, next), r),
    ensures
        first is None ==> r == Ok::<StreamSpec, StreamSpec>(next),
        first matches Some(s) ==> {
            let same = s.rate == next.rate && s.channels == next.channels && s.fmt == next.fmt;
            &&& same ==> r == Ok::<StreamSpec, StreamSpec>(s)
            &&& !same ==> r == Err::<StreamSpec, StreamSpec>(s)
        },
{
}

/// A capture that shows the start of what was played, `k` frames late, is aligned there or
/// earlier, however it goes on: a window of frames from the first sound on is enough.
pub proof fn law_shown_start_is_found(
    played: &[u8],
    captured: &[u8],
    fb: usize,
    start: int,
    k: int,
    r: Option<usize>,
)
    requires
        call_ensures(find_alignment, (played, captured, fb), r),
        fb > 0,
        k >= 0,
        0 <= start < played@.len() / fb as nat,
        exists|b: int| 0 <= b < fb && #[trigger] played@[start * fb + b] != 0,
        forall|g: int, b: int|
            0 <= g < start && 0 <= b < fb ==> #[trigger] played@[g * fb + b] == 0,
        start + 8192 + k <= captured@.len() / fb as nat || played@.len() / fb as nat + k
            <= captured@.len() / fb as nat,
        forall|f: int|
            start <= f < start + 8192 && f < played@.len() / fb as nat ==> #[trigger] shows(
                played@,
                captured@,
                fb as nat,
                f,
                k,
            ),
    ensures
        r matches Some(d) && d <= k,
{
    let p = played@;
    let c = captured@;
    let n = fb as nat;
    assert(loud(p, n, start));
    assert forall|g: int| 0 <= g < start implies !loud(p, n, g) by {
        assert forall|b: int| 0 <= b < n implies #[trigger] p[g * n + b] == 0 by {}
    }
    lemma_first_loud(p, n, 0, start);
    lemma_window_shown(p, c, n, k);
    let args = (played, captured, fb);
    assert(aligned(args.0@, args.1@, args.2 as nat, k));
}

proof fn lemma_window_shown(played: Seq<u8>, captured: Seq<u8>, fb: nat, k: int)
    requires
        fb > 0,
        k >= 0,
        anchor(played, fb) + window(played, fb) + k <= captured.len() / fb,
        forall|f: int|
            anchor(played, fb) <= f < anchor(played, fb) + window(played, fb) ==> #[trigger] shows(
                played,
                captured,
                fb,
                f,
                k,
            ),
    ensures
        0 <= k <= max_delay(played, captured, fb),
        aligned(played, captured, fb, k),
{
    let a = anchor(played, fb);
    let w = window(played, fb);
    lemma_anchor(played, fb, 0);
    lemma_frames(played, fb);
    lemma_frames(captured, fb);
    lemma_inside(a, frames(played, fb) as int, fb as int, played.len() as int);
    lemma_inside(a + w, frames(played, fb) as int, fb as int, played.len() as int);
    lemma_inside(a + k + w, frames(captured, fb) as int, fb as int, captured.len() as int);
    lemma_inside(a + k, frames(captured, fb) as int, fb as int, captured.len() as int);
    let x = captured.subrange((a + k) * fb, (a + k + w) * fb);
    let y = played.subrange(a * fb, (a + w) * fb);
    assert((a + w) * fb == a * fb + w * fb) by (nonlinear_arith);
    assert((a + k + w) * fb == (a + k) * fb + w * fb) by (nonlinear_arith);
    assert forall|i: int| 0 <= i < w * fb implies x[i] == y[i] by {
        vstd::arithmetic::div_mod::lemma_fundamental_div_mod(i, fb as int);
        let q = i / fb as int;
        let b = i % fb as int;
        let f = a + q;
        assert(0 <= q < w) by (nonlinear_arith)
            requires
                fb > 0,
                0 <= i < w * fb,
                i == fb * q + b,
                0 <= b < fb,
        ;
        assert(shows(played, captured, fb, f, k));
        assert(f * fb + b == a * fb + i) by (nonlinear_arith)
            requires
                f == a + q,
                i == fb * q + b,
        ;
        assert((f + k) * fb + b == (a + k) * fb + i) by (nonlinear_arith)
            requires
                f == a + q,
                i == fb * q + b,
        ;
        assert(played[f * fb + b] == captured[(f + k) * fb + b]);
    }
    assert(x =~= y);
}

proof fn lemma_none_loud(s: Seq<u8>, fb: nat, f: int)
    requires
        0 <= f <= frames(s, fb),
        forall|g: int| f <= g < frames(s, fb) ==> !#[trigger] loud(s, fb, g),
    ensures
        first_loud(s, fb, f) == frames(s, fb),
    decreases frames(s, fb) - f,
{
    if f < frames(s, fb) {
        assert(!loud(s, fb, f));
        lemma_none_loud(s, fb, f + 1);
    }
}

/// What was played in silence is aligned by its first frames.
pub proof fn law_silence_is_aligned_by_its_start(
    played: &[u8],
    captured: &[u8],
    fb: usize,
    d: usize,
    f: int,
)
    requires
        call_ensures(find_alignment, (played, captured, fb), Some(d)),
        fb > 0,
        played@.len() / fb as nat <= captured@.len() / fb as nat,
        forall|g: int, b: int|
            0 <= g < played@.len() / fb as nat && 0 <= b < fb ==> #[trigger] played@[g * fb + b]
                == 0,
        0 <= f < 8192,
        f < played@.len() / fb as nat,
    ensures
        f + d < captured@.len() / fb as nat,
        shows(played@, captured@, fb as nat, f, d as int),
{
    let p = played@;
    let c = captured@;
    let fb = fb as nat;
    assert forall|g: int| 0 <= g < frames(p, fb) implies !#[trigger] loud(p, fb, g) by {
        assert forall|b: int| 0 <= b < fb implies #[trigger] p[g * fb + b] == 0 by {}
    }
    lemma_none_loud(p, fb, 0);
    let w = window(p, fb);
    assert(anchor(p, fb) == 0);
    assert(f < w);
    lemma_frames(p, fb);
    lemma_frames(c, fb);
    lemma_inside(w, frames(p, fb) as int, fb as int, p.len() as int);
    lemma_inside(d + w, frames(c, fb) as int, fb as int, c.len() as int);
    lemma_inside(d as int, frames(c, fb) as int, fb as int, c.len() as int);
    lemma_shows(p, c, fb, f, d as int);
    let a = anchor(p, fb);
    let x = c.subrange((a + d) * fb, (a + d + w) * fb);
    let y = p.subrange(a * fb, (a + w) * fb);
    assert(x == y);
    assert forall|b: int| 0 <= b < fb implies #[trigger] p[f * fb + b] == c[(f + d) * fb + b] by {
        let i = f * fb + b;
        assert(0 <= i < w * fb) by (nonlinear_arith)
            requires
                i == f * fb + b,
                0 <= b < fb,
                0 <= f,
                f + 1 <= w,
        ;
        assert(i + d * fb == (f + d) * fb + b) by (nonlinear_arith)
            requires
                i == f * fb + b,
        ;
        assert((d + w) * fb == d * fb + w * fb) by (nonlinear_arith);
        assert(x[i] == y[i]);
    }
}

/// The verdict goes by the alignment that is found: without one there is none to compare at, and
/// with one the streams are compared at its delay.
pub proof fn law_verdict_goes_by_the_alignment(
    played: &[u8],
    captured: &[u8],
    fb: usize,
    r: Option<usize>,
    v: Verdict,
)
    requires
        call_ensures(find_alignment, (played, captured, fb), r),
        call_ensures(compare, (played, captured, fb), v),
        fb > 0,
    ensures
        r is None <==> v is NoAlignment,
        v matches Verdict::Match { frames, delay } ==> r == Some(delay),
        v matches Verdict::Differs { diff, frames, first, delay } ==> r == Some(delay),
{
    let args = (played, captured, fb);
    let p = args.0@;
    let c = args.1@;
    let n = args.2 as nat;
    assert(max_delay(p, c, n) == max_delay(played@, captured@, fb as nat));
    let delay: int = match v {
        Verdict::NoAlignment => -1,
        Verdict::Match { frames, delay } => delay as int,
        Verdict::Differs { diff, frames, first, delay } => delay as int,
    };
    if delay >= 0 {
        assert(aligned(p, c, n, delay));
    }
    if let Some(d) = r {
        assert(aligned(p, c, n, d as int));
    }
}

} // verus!
