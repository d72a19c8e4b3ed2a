//! The play queue: which track is current, and what each of the user's actions does.
use crate::engine::Cmd;
use crate::format::StreamSpec;
use crate::model::Track;
use crate::span::Span;
use vstd::prelude::*;

verus! {

pub struct PlayQueue {
    pub tracks: Vec<Track>,
    pub current: Option<usize>,
    pub playing: bool,
    pub paused: bool,
    pub repeat: bool,
    pub shuffle: bool,
    pub last_pos_ms: u64,
    /// Where to go on in the restored track, once it plays.
    pub resume_to: Option<Span>,
}

/// A track that is to be started.
pub struct Start {
    pub cmd: Cmd,
    /// The library entry whose play is to be recorded.
    pub record: Option<i64>,
}

/// How marking a track as loved went.
#[derive(Clone, Copy, Debug, PartialEq, Eq, Structural)]
pub enum LovedStep {
    NotInLibrary,
    NotStored,
    Done,
}

/// What the play button does.
#[derive(Clone, Copy, Debug, PartialEq, Eq, Structural)]
pub enum Toggle {
    Pause,
    Resume,
    /// Start the current track.
    Start,
    Nothing,
}

/// The file that a track is read from.
pub open spec fn source_of(t: Track) -> String {
    match t.source_path {
        Some(s) => s,
        None => t.path,
    }
}

/// The command that plays a track: one track of a disc image, a part of a file, or a file.
pub open spec fn plays(cmd: Cmd, t: Track) -> bool {
    match crate::scan::disc_track(t) {
        Some(n) => cmd matches Cmd::PlaySacd { path, track } && path == source_of(t) && track == n,
        None => match t.start_ms {
            Some(start) => cmd matches Cmd::PlayRange { path, start: a, end: b } && path
                == source_of(t) && a.nanos == start * 1_000_000 && b.nanos == (start + (
            match t.duration_ms {
                Some(d) => d as int,
                None => 0,
            })) * 1_000_000,
            None => cmd == Cmd::Play(t.path),
        },
    }
}

/// The command that plays a track.
pub fn play_cmd(t: &Track) -> (cmd: Cmd)
    ensures
        plays(cmd, *t),
{
    let source = match &t.source_path {
        Some(s) => s.clone(),
        None => t.path.clone(),
    };
    match t.sacd_track() {
        Some(n) => Cmd::PlaySacd { path: source, track: n },
        None => match t.cue_range() {
            Some((start, end)) => Cmd::PlayRange { path: source, start, end },
            None => Cmd::Play(t.path.clone()),
        },
    }
}

impl PlayQueue {
    /// The current place is one of the queue.
    pub open spec fn wf(self) -> bool {
        self.current matches Some(i) ==> i < self.tracks@.len()
    }

    /// The current track.
    pub open spec fn now(self) -> Option<Track> {
        match self.current {
            Some(i) if i < self.tracks@.len() => Some(self.tracks@[i as int]),
            _ => None,
        }
    }

    /// Nothing but the named fields differs.
    pub open spec fn moved_to(self, old: Self, current: Option<usize>, playing: bool) -> bool {
        &&& self.tracks@ == old.tracks@
        &&& self.current == current
        &&& self.playing == playing
        &&& self.paused == old.paused
        &&& self.repeat == old.repeat
        &&& self.shuffle == old.shuffle
        &&& self.last_pos_ms == old.last_pos_ms
        &&& self.resume_to == old.resume_to
    }

    pub fn new() -> (q: Self)
        ensures
            q.wf(),
            q.tracks@ == Seq::<Track>::empty(),
            q.current is None,
            !q.playing && !q.paused && !q.repeat && !q.shuffle,
            q.last_pos_ms == 0,
            q.resume_to is None,
    {
        PlayQueue {
            tracks: Vec::new(),
            current: None,
            playing: false,
            paused: false,
            repeat: false,
            shuffle: false,
            last_pos_ms: 0,
            resume_to: None,
        }
    }

    /// Replaces the queue and makes `start` current. An empty list changes nothing. Returns
    /// whether there was something to play.
    pub fn play_list(&mut self, tracks: Vec<Track>, start: usize) -> (b: bool)
        ensures
            b == (tracks@.len() > 0),
            !b ==> *final(self) == *old(self),
            b ==> *final(self) == (PlayQueue {
                tracks,
                current: Some(start),
                playing: true,
                resume_to: None,
                ..*old(self)
            }),
            start < tracks@.len() ==> final(self).wf(),
    {
        if tracks.len() == 0 {
            return false;
        }
        self.tracks = tracks;
        self.current = Some(start);
        self.playing = true;
        self.resume_to = None;
        true
    }

    pub fn current_track(&self) -> (r: Option<Track>)
        ensures
            r == self.now(),
    {
        match self.current {
            Some(i) => if i < self.tracks.len() {
                Some(self.tracks[i].clone())
            } else {
                None
            },
            None => None,
        }
    }

    /// Starts the current track, if there is one.
    pub fn start_current(&mut self) -> (r: Option<Start>)
        ensures
            old(self).wf() ==> final(self).wf(),
            r is None <==> old(self).now() is None,
            r is None ==> *final(self) == *old(self),
            r matches Some(s) ==> {
                let t = old(self).now()->0;
                &&& *final(self) == (PlayQueue { paused: false, ..*old(self) })
                &&& plays(s.cmd, t)
                &&& s.record == (if t.id > 0 {
                    Some(t.id)
                } else {
                    None
                })
            },
    {
        match self.current_track() {
            None => None,
            Some(t) => {
                self.paused = false;
                let record: Option<i64> = if t.id > 0 {
                    Some(t.id)
                } else {
                    None
                };
                Some(Start { cmd: play_cmd(&t), record })
            },
        }
    }

    /// The play button: pauses what plays, resumes what is paused, else starts the current
    /// track or the first.
    pub fn toggle_play(&mut self) -> (r: Toggle)
        ensures
            old(self).wf() ==> final(self).wf(),
            if old(self).playing {
                &&& r == Toggle::Pause
                &&& *final(self) == (PlayQueue { playing: false, paused: true, ..*old(self) })
            } else if old(self).paused {
                &&& r == Toggle::Resume
                &&& *final(self) == (PlayQueue { playing: true, paused: false, ..*old(self) })
            } else if old(self).current is Some {
                &&& r == Toggle::Start
                &&& *final(self) == (PlayQueue { playing: true, ..*old(self) })
            } else if old(self).tracks@.len() > 0 {
                &&& r == Toggle::Start
                &&& *final(self) == (PlayQueue {
                    current: Some(0usize),
                    playing: true,
                    ..*old(self)
                })
            } else {
                r == Toggle::Nothing && *final(self) == *old(self)
            },
    {
        if self.playing {
            self.playing = false;
            self.paused = true;
            Toggle::Pause
        } else if self.paused {
            self.playing = true;
            self.paused = false;
            Toggle::Resume
        } else if self.current.is_some() {
            self.playing = true;
            Toggle::Start
        } else if self.tracks.len() > 0 {
            self.current = Some(0);
            self.playing = true;
            Toggle::Start
        } else {
            Toggle::Nothing
        }
    }

    /// The length of the current track; zero where it is not known.
    pub open spec fn total_ms(self) -> u64 {
        match self.now() {
            Some(t) => match t.duration_ms {
                Some(d) => d,
                None => 0,
            },
            None => 0,
        }
    }

    pub fn current_total_ms(&self) -> (ms: u64)
        ensures
            ms == self.total_ms(),
    {
        match self.current_track() {
            Some(t) => match t.duration_ms {
                Some(d) => d,
                None => 0,
            },
            None => 0,
        }
    }

    /// Seeks by some milliseconds, within the track. Returns the place to seek to, unless
    /// the track's length is not known.
    pub fn seek_by(&mut self, delta_ms: i64) -> (r: Option<u64>)
        requires
            old(self).total_ms() <= i64::MAX,
            old(self).last_pos_ms <= i64::MAX,
            old(self).last_pos_ms + delta_ms <= i64::MAX,
        ensures
            old(self).wf() ==> final(self).wf(),
            old(self).total_ms() == 0 <==> r is None,
            r is None ==> *final(self) == *old(self),
            r matches Some(target) ==> {
                let want = old(self).last_pos_ms + delta_ms;
                &&& target == (if want < 0 {
                    0
                } else if want > old(self).total_ms() {
                    old(self).total_ms() as int
                } else {
                    want
                })
                &&& *final(self) == (PlayQueue {
                    playing: true,
                    paused: false,
                    last_pos_ms: target,
                    ..*old(self)
                })
            },
    {
        let total: u64 = self.current_total_ms();
        if total == 0 {
            return None;
        }
        let want: i64 = self.last_pos_ms as i64 + delta_ms;
        let target: u64 = if want < 0 {
            0
        } else if want > total as i64 {
            total
        } else {
            want as u64
        };
        self.playing = true;
        self.paused = false;
        self.last_pos_ms = target;
        Some(target)
    }

    /// The user has dragged the position: the track plays on from there.
    pub fn seek_to(&mut self)
        ensures
            *final(self) == (PlayQueue { playing: true, paused: false, ..*old(self) }),
    {
        self.playing = true;
        self.paused = false;
    }

    /// The track that follows: a random one when shuffling, else the next, else the first
    /// when repeating.
    pub open spec fn following(self, random: nat) -> Option<int> {
        let len = self.tracks@.len();
        if len == 0 {
            None
        } else if self.shuffle {
            Some(drawn(random, len))
        } else {
            match self.current {
                Some(i) if i + 1 < len => Some(i + 1),
                _ => if self.repeat {
                    Some(0)
                } else {
                    None
                },
            }
        }
    }

    /// Goes on to the next track. Returns whether there is one to start; playback stops if
    /// there is none.
    pub fn advance(&mut self, random: usize) -> (b: bool)
        ensures
            old(self).wf() ==> final(self).wf(),
            b == (old(self).following(random as nat) is Some),
            match old(self).following(random as nat) {
                Some(i) => final(self).moved_to(*old(self), Some(i as usize), true),
                None => final(self).moved_to(*old(self), old(self).current, false),
            },
    {
        let len: usize = self.tracks.len();
        proof {
            law_following_is_in_the_queue(*self, random as nat);
        }
        let next: Option<usize> = if len == 0 {
            None
        } else if self.shuffle {
            Some(pseudo_random(random, len))
        } else {
            match self.current {
                Some(i) => if i < len - 1 {
                    Some(i + 1)
                } else if self.repeat {
                    Some(0)
                } else {
                    None
                },
                None => if self.repeat {
                    Some(0)
                } else {
                    None
                },
            }
        };
        match next {
            Some(i) => {
                self.current = Some(i);
                self.playing = true;
                true
            },
            None => {
                self.playing = false;
                false
            },
        }
    }

    /// Goes back one track; the first one starts over. Returns whether there is one to start.
    pub fn prev_track(&mut self) -> (b: bool)
        ensures
            old(self).wf() ==> final(self).wf(),
            b == (old(self).current is Some),
            match old(self).current {
                Some(i) => final(self).moved_to(
                    *old(self),
                    Some(
                        if i > 0 {
                            (i - 1) as usize
                        } else {
                            i
                        },
                    ),
                    true,
                ),
                None => *final(self) == *old(self),
            },
    {
        match self.current {
            Some(i) => {
                if i > 0 {
                    self.current = Some(i - 1);
                }
                self.playing = true;
                true
            },
            None => false,
        }
    }

    /// Adds a track at the end.
    pub fn enqueue_track(&mut self, track: Track)
        ensures
            old(self).wf() ==> final(self).wf(),
            final(self).tracks@ == old(self).tracks@.push(track),
            *final(self) == (PlayQueue { tracks: final(self).tracks, ..*old(self) }),
    {
        self.tracks.push(track);
    }

    /// Adds tracks at the end.
    pub fn enqueue_tracks(&mut self, tracks: Vec<Track>)
        ensures
            old(self).wf() ==> final(self).wf(),
            final(self).tracks@ == old(self).tracks@ + tracks@,
            *final(self) == (PlayQueue { tracks: final(self).tracks, ..*old(self) }),
    {
        let mut more = tracks;
        self.tracks.append(&mut more);
    }

    /// Adds a track at the end and makes it current.
    pub fn play_track_now(&mut self, track: Track)
        ensures
            old(self).wf() ==> final(self).wf(),
            final(self).tracks@ == old(self).tracks@.push(track),
            *final(self) == (PlayQueue {
                tracks: final(self).tracks,
                current: Some(old(self).tracks@.len() as usize),
                playing: true,
                ..*old(self)
            }),
    {
        self.tracks.push(track);
        self.current = Some(self.tracks.len() - 1);
        self.playing = true;
    }

    /// Empties the queue and stops.
    pub fn clear_queue(&mut self)
        ensures
            final(self).wf(),
            final(self).tracks@ == Seq::<Track>::empty(),
            *final(self) == (PlayQueue {
                tracks: final(self).tracks,
                current: None,
                playing: false,
                paused: false,
                ..*old(self)
            }),
    {
        self.tracks.clear();
        self.current = None;
        self.playing = false;
        self.paused = false;
    }

    /// Makes a track current. Returns whether it is to be started: a place outside the queue
    /// changes nothing.
    pub fn jump_to(&mut self, i: usize) -> (b: bool)
        ensures
            old(self).wf() ==> final(self).wf(),
            b == (i < old(self).tracks@.len()),
            b ==> final(self).moved_to(*old(self), Some(i), true),
            !b ==> *final(self) == *old(self),
    {
        if i >= self.tracks.len() {
            return false;
        }
        self.current = Some(i);
        self.playing = true;
        true
    }

    /// The current place after the track at `i` is gone from a queue that then has `len`:
    /// it stays on its track; if that is the one gone, on the one that takes its place.
    pub open spec fn place_after_removal(current: Option<usize>, i: int, len: nat) -> Option<
        usize,
    > {
        match current {
            Some(c) => if c == i {
                if len == 0 {
                    None
                } else if c < len {
                    Some(c)
                } else {
                    Some((len - 1) as usize)
                }
            } else if c > i {
                Some((c - 1) as usize)
            } else {
                Some(c)
            },
            None => None,
        }
    }

    /// Takes a track out. A place outside the queue changes nothing.
    pub fn remove_from_queue(&mut self, i: usize)
        ensures
            old(self).wf() ==> final(self).wf(),
            if i < old(self).tracks@.len() {
                &&& final(self).tracks@ == old(self).tracks@.remove(i as int)
                &&& *final(self) == (PlayQueue {
                    tracks: final(self).tracks,
                    current: PlayQueue::place_after_removal(
                        old(self).current,
                        i as int,
                        (old(self).tracks@.len() - 1) as nat,
                    ),
                    ..*old(self)
                })
            } else {
                *final(self) == *old(self)
            },
    {
        if i >= self.tracks.len() {
            return;
        }
        let _gone = self.tracks.remove(i);
        let len: usize = self.tracks.len();
        self.current = match self.current {
            Some(c) => if c == i {
                if len == 0 {
                    None
                } else if c < len {
                    Some(c)
                } else {
                    Some(len - 1)
                }
            } else if c > i {
                Some(c - 1)
            } else {
                Some(c)
            },
            None => None,
        };
    }

    /// Marks every copy of a library track in the queue as loved or not, if the library has
    /// stored that.
    pub fn toggle_loved(&mut self, track_id: i64, loved: bool, stored: bool) -> (r: LovedStep)
        ensures
            old(self).wf() ==> final(self).wf(),
            r == (if track_id <= 0 {
                LovedStep::NotInLibrary
            } else if !stored {
                LovedStep::NotStored
            } else {
                LovedStep::Done
            }),
            r != LovedStep::Done ==> *final(self) == *old(self),
            r == LovedStep::Done ==> {
                &&& final(self).tracks@ == old(self).tracks@.map_values(
                    |t: Track|
                        if t.id == track_id {
                            Track { loved, ..t }
                        } else {
                            t
                        },
                )
                &&& *final(self) == (PlayQueue { tracks: final(self).tracks, ..*old(self) })
            },
    {
        if track_id <= 0 {
            return LovedStep::NotInLibrary;
        }
        if !stored {
            return LovedStep::NotStored;
        }
        let n: usize = self.tracks.len();
        for i in 0..n
            invariant
                n == old(self).tracks@.len(),
                self.tracks@.len() == n,
                forall|j: int| i <= j < n ==> #[trigger] self.tracks@[j] == old(self).tracks@[j],
                forall|j: int|
                    0 <= j < i ==> #[trigger] self.tracks@[j] == (if old(self).tracks@[j].id
                        == track_id {
                        Track { loved, ..old(self).tracks@[j] }
                    } else {
                        old(self).tracks@[j]
                    }),
                *self == (PlayQueue { tracks: self.tracks, ..*old(self) }),
        {
            assert(self.tracks@[i as int] == old(self).tracks@[i as int]);
            if self.tracks[i].id == track_id {
                let mut t = self.tracks[i].clone();
                t.loved = loved;
                self.tracks.set(i, t);
            }
        }
        LovedStep::Done
    }

    /// The device has started on the current track: an unknown sample rate is now known.
    /// Returns the place to resume from, once.
    pub fn on_started(&mut self, spec: StreamSpec) -> (r: Option<Span>)
        ensures
            old(self).wf() ==> final(self).wf(),
            r == old(self).resume_to,
            final(self).tracks@ == (match old(self).now() {
                Some(t) if t.sample_rate is None => old(self).tracks@.update(
                    old(self).current->0 as int,
                    Track { sample_rate: Some(spec.rate), ..t },
                ),
                _ => old(self).tracks@,
            }),
            *final(self) == (PlayQueue {
                tracks: final(self).tracks,
                playing: true,
                resume_to: None,
                ..*old(self)
            }),
    {
        self.playing = true;
        let r = self.resume_to;
        self.resume_to = None;
        if let Some(i) = self.current {
            if i < self.tracks.len() && self.tracks[i].sample_rate.is_none() {
                let mut t = self.tracks[i].clone();
                t.sample_rate = Some(spec.rate);
                self.tracks.set(i, t);
            }
        }
        r
    }

    /// The engine has played `frames` of the current track. Returns the whole seconds played,
    /// unless the track's rate is not known.
    pub fn on_position(&mut self, frames: u64) -> (r: Option<u64>)
        requires
            frames * 1000 <= u64::MAX,
        ensures
            old(self).wf() ==> final(self).wf(),
            match old(self).rate() {
                0 => r is None && *final(self) == *old(self),
                rate => {
                    &&& r == Some((frames as nat / rate as nat) as u64)
                    &&& *final(self) == (PlayQueue {
                        last_pos_ms: (frames as nat * 1000 / rate as nat) as u64,
                        ..*old(self)
                    })
                },
            },
    {
        let rate: u32 = match self.current_track() {
            Some(t) => match t.sample_rate {
                Some(rate) => rate,
                None => 0,
            },
            None => 0,
        };
        if rate == 0 {
            return None;
        }
        self.last_pos_ms = frames * 1000 / rate as u64;
        Some(frames / rate as u64)
    }

    /// The rate of the current track; zero where it is not known.
    pub open spec fn rate(self) -> u32 {
        match self.now() {
            Some(t) => match t.sample_rate {
                Some(rate) => rate,
                None => 0,
            },
            None => 0,
        }
    }

    /// Takes a restored queue in, without playing it.
    pub fn restore(&mut self, tracks: Vec<Track>, current: Option<usize>, resume_ms: Option<u64>)
        ensures
            (current matches Some(i) ==> i < tracks@.len()) ==> final(self).wf(),
            match resume_ms {
                Some(ms) => final(self).resume_to matches Some(s) && s.nanos == ms * 1_000_000,
                None => final(self).resume_to is None,
            },
            *final(self) == (PlayQueue {
                tracks,
                current,
                resume_to: final(self).resume_to,
                ..*old(self)
            }),
    {
        self.tracks = tracks;
        self.current = current;
        self.resume_to = match resume_ms {
            Some(ms) => Some(Span::from_millis(ms)),
            None => None,
        };
    }

    /// The places of what comes next: from one place to the end.
    pub fn up_next(&self) -> (r: (usize, usize))
        ensures
            r.1 == self.tracks@.len(),
            r.0 == (match self.current {
                Some(c) if c < self.tracks@.len() => c + 1,
                Some(_) => self.tracks@.len() as int,
                None => 0,
            }),
    {
        let n: usize = self.tracks.len();
        match self.current {
            Some(c) => if c < n {
                (c + 1, n)
            } else {
                (n, n)
            },
            None => (0, n),
        }
    }
}

/// The track that is drawn by a random number.
pub open spec fn drawn(random: nat, len: nat) -> int {
    (random % (if len == 0 {
        1
    } else {
        len
    })) as int
}

/// A place in a queue, drawn by a random number.
pub fn pseudo_random(random: usize, len: usize) -> (i: usize)
    ensures
        i == drawn(random as nat, len as nat),
        len > 0 ==> i < len,
{
    let n: usize = if len == 0 {
        1
    } else {
        len
    };
    random % n
}

/// Taking another track out of the queue never changes what is current: it is the same
/// track, wherever it now stands.
pub proof fn law_removal_keeps_the_current_track(tracks: Seq<Track>, c: usize, i: int)
    requires
        c < tracks.len(),
        0 <= i < tracks.len(),
        i != c,
    ensures
        ({
            let p = PlayQueue::place_after_removal(Some(c), i, (tracks.len() - 1) as nat);
            p is Some && p->0 < tracks.len() - 1 && tracks.remove(i)[p->0 as int] == tracks[c as int]
        }),
{
}

/// The track that follows is always one of the queue.
pub proof fn law_following_is_in_the_queue(q: PlayQueue, random: nat)
    ensures
        q.following(random) matches Some(i) ==> 0 <= i < q.tracks@.len(),
{
    let len = q.tracks@.len();
    if len > 0 {
        vstd::arithmetic::div_mod::lemma_mod_bound(random as int, len as int);
    }
}

/// Without shuffling, a queue is played from front to back: the track behind the current
/// one follows, and after the last one the first if repeating, else nothing.
pub proof fn law_queue_plays_in_order(q: PlayQueue, random: nat)
    requires
        q.wf(),
        !q.shuffle,
        q.current is Some,
    ensures
        q.current->0 + 1 < q.tracks@.len() ==> q.following(random) == Some(q.current->0 + 1int),
        q.current->0 + 1 == q.tracks@.len() ==> q.following(random) == (if q.repeat {
            Some(0int)
        } else {
            None
        }),
{
}

/// One step of the generator behind shuffling.
pub open spec fn next_seed(s: u64) -> u64 {
    let a = s ^ (s << 13u32);
    let b = a ^ (a >> 7u32);
    b ^ (b << 17u32)
}

pub open spec fn swapped<T>(v: Seq<T>, i: int, j: int) -> Seq<T> {
    v.update(i, v[j]).update(j, v[i])
}

/// `slice::swap` exchanges two elements. It panics on a place outside the slice.
#[verifier::external_body]
fn swap_places<T>(s: &mut [T], a: usize, b: usize)
    requires
        a < old(s)@.len(),
        b < old(s)@.len(),
    ensures
        final(s)@ == swapped(old(s)@, a as int, b as int),
{
    s.swap(a, b)
}

/// From the last place down, each place is swapped with a random one up to it.
pub open spec fn shuffled<T>(v: Seq<T>, i: int, seed: u64) -> Seq<T>
    decreases i,
{
    if i <= 0 {
        v
    } else {
        let s = next_seed(seed);
        shuffled(swapped(v, i, (s as int) % (i + 1)), i - 1, s)
    }
}

/// What shuffling starts from: the time, or a constant where there is none.
pub open spec fn first_seed(clock: Option<u64>) -> u64 {
    (match clock {
        Some(c) => c,
        None => 0x9E37_79B9,
    }) | 1
}

/// Shuffles, seeded by the clock.
pub fn shuffle_vec<T>(v: &mut [T], clock: Option<u64>)
    ensures
        final(v)@ == shuffled(old(v)@, old(v)@.len() - 1, first_seed(clock)),
{
    let n: usize = v.len();
    if n == 0 {
        return;
    }
    let start: u64 = match clock {
        Some(c) => c,
        None => 0x9E37_79B9,
    };
    let mut seed: u64 = start | 1;
    let mut i: usize = n - 1;
    while i > 0
        invariant
            v@.len() == n,
            i < n,
            shuffled(old(v)@, n - 1, first_seed(clock)) == shuffled(v@, i as int, seed),
        decreases i,
    {
        seed = seed ^ (seed << 13u32);
        seed = seed ^ (seed >> 7u32);
        seed = seed ^ (seed << 17u32);
        let j: usize = (seed % (i as u64 + 1)) as usize;
        swap_places(v, i, j);
        i = i - 1;
    }
}

/// Shuffling loses nothing and repeats nothing: the same places, in another order.
pub proof fn law_shuffle_is_a_permutation<T>(v: Seq<T>, i: int, seed: u64)
    requires
        i < v.len(),
    ensures
        shuffled(v, i, seed).len() == v.len(),
        shuffled(v, i, seed).to_multiset() == v.to_multiset(),
    decreases i,
{
    if i > 0 {
        let s = next_seed(seed);
        let j = (s as int) % (i + 1);
        let w = swapped(v, i, j);
        law_shuffle_is_a_permutation(w, i - 1, s);
        broadcast use vstd::seq_lib::group_to_multiset_ensures;

        vstd::seq_lib::to_multiset_update(v, i, v[j]);
        let u = v.update(i, v[j]);
        vstd::seq_lib::to_multiset_update(u, j, v[i]);
        assert(w.to_multiset() =~= v.to_multiset());
    }
}

/// A track is played from the file it lies in: a disc track by its number, a part of a file
/// from its start for its length, and any other file whole.
pub proof fn law_tracks_are_played_from_their_file(t: Track, cmd: Cmd)
    requires
        call_ensures(play_cmd, (&t,), cmd),
    ensures
        ({
            let file = match t.source_path {
                Some(s) => s,
                None => t.path,
            };
            &&& crate::scan::disc_track(t) matches Some(n) ==> (cmd matches Cmd::PlaySacd {
                path,
                track,
            } && path == file && track == n)
            &&& crate::scan::disc_track(t) is None && t.start_ms is None ==> cmd == Cmd::Play(t.path)
            &&& crate::scan::disc_track(t) is None && t.start_ms is Some ==> (
            cmd matches Cmd::PlayRange { path, start, end } && {
                &&& path == file
                &&& start.nanos == t.start_ms->0 * 1_000_000
                &&& t.duration_ms is None ==> end == start
                &&& t.duration_ms matches Some(d) ==> end.nanos == start.nanos + d * 1_000_000
            })
        }),
{
}

/// Playing a list replaces the queue, from the place asked for; an empty list changes nothing.
pub proof fn law_played_list_is_the_queue(
    q: &mut PlayQueue,
    tracks: Vec<Track>,
    start: usize,
    b: bool,
)
    requires
        call_ensures(PlayQueue::play_list, (q, tracks, start), b),
    ensures
        b <==> tracks@.len() > 0,
        !b ==> *final(q) == *old(q),
        b ==> {
            &&& final(q).tracks == tracks
            &&& final(q).current == Some(start)
            &&& final(q).playing
            &&& final(q).resume_to is None
            &&& final(q).paused == old(q).paused
            &&& final(q).repeat == old(q).repeat
            &&& final(q).shuffle == old(q).shuffle
            &&& final(q).last_pos_ms == old(q).last_pos_ms
        },
{
}

/// The current track is the one at the current place, and starting it plays that one: a pause is
/// over, and a play of a library track is recorded under its id.
pub proof fn law_current_track_starts(
    q: &mut PlayQueue,
    r: Option<Start>,
    p: PlayQueue,
    t: Option<Track>,
    ms: u64,
)
    requires
        call_ensures(PlayQueue::start_current, (q,), r),
        call_ensures(PlayQueue::current_track, (&p,), t),
        call_ensures(PlayQueue::current_total_ms, (&p,), ms),
        *old(q) == p,
    ensures
        p.current is None ==> t is None,
        p.current matches Some(i) ==> {
            &&& i < p.tracks@.len() ==> t == Some(p.tracks@[i as int])
            &&& i >= p.tracks@.len() ==> t is None
        },
        t is None ==> ms == 0,
        t matches Some(x) ==> {
            &&& x.duration_ms is None ==> ms == 0
            &&& x.duration_ms matches Some(d) ==> ms == d
        },
        r is Some <==> t is Some,
        r is None ==> *final(q) == p,
        r matches Some(s) ==> {
            &&& plays(s.cmd, t->0)
            &&& t->0.id > 0 ==> s.record == Some(t->0.id)
            &&& t->0.id <= 0 ==> s.record is None
            &&& !final(q).paused
            &&& final(q).playing == p.playing
            &&& final(q).tracks == p.tracks
            &&& final(q).current == p.current
            &&& final(q).resume_to == p.resume_to
            &&& final(q).last_pos_ms == p.last_pos_ms
        },
        r is Some ==> *final(q) == (PlayQueue { paused: false, ..p }),
{
}

/// The play button turns playing into a pause and a pause into playing. Otherwise it starts the
/// current track, or the first; with an empty queue it does nothing. It never changes the queue.
pub proof fn law_play_button(q: &mut PlayQueue, r: Toggle)
    requires
        call_ensures(PlayQueue::toggle_play, (q,), r),
    ensures
        final(q).tracks == old(q).tracks,
        final(q).last_pos_ms == old(q).last_pos_ms,
        final(q).repeat == old(q).repeat && final(q).shuffle == old(q).shuffle,
        final(q).resume_to == old(q).resume_to,
        old(q).playing ==> r == Toggle::Pause && !final(q).playing && final(q).paused,
        !old(q).playing && old(q).paused ==> r == Toggle::Resume && final(q).playing
            && !final(q).paused,
        !old(q).playing && !old(q).paused && (old(q).current is Some || old(q).tracks@.len() > 0)
            ==> r == Toggle::Start && final(q).playing,
        !old(q).playing && !old(q).paused && old(q).current is None && old(q).tracks@.len() == 0
            ==> r == Toggle::Nothing && !final(q).playing,
        r == Toggle::Start && old(q).current is None ==> final(q).current == Some(0usize),
        r != Toggle::Start || old(q).current is Some ==> final(q).current == old(q).current,
{
}

/// Seeking by some milliseconds counts from the last position and stops at the ends of the
/// track; what was paused plays on. Without a length nothing happens.
pub proof fn law_seek_by_stays_in_the_track(
    q: &mut PlayQueue,
    delta: i64,
    r: Option<u64>,
    total: u64,
)
    requires
        call_ensures(PlayQueue::seek_by, (q, delta), r),
        call_ensures(PlayQueue::current_total_ms, (&*old(q),), total),
        total <= i64::MAX,
        old(q).last_pos_ms <= i64::MAX,
        old(q).last_pos_ms + delta <= i64::MAX,
    ensures
        r is None <==> total == 0,
        r is None ==> *final(q) == *old(q),
        r matches Some(to) ==> {
            &&& 0 <= old(q).last_pos_ms + delta <= total ==> to == old(q).last_pos_ms + delta
            &&& old(q).last_pos_ms + delta < 0 ==> to == 0
            &&& old(q).last_pos_ms + delta > total ==> to == total
            &&& final(q).last_pos_ms == to
            &&& final(q).playing && !final(q).paused
            &&& final(q).tracks == old(q).tracks && final(q).current == old(q).current
        },
        r matches Some(to) ==> *final(q) == (PlayQueue {
            playing: true,
            paused: false,
            last_pos_ms: to,
            ..*old(q)
        }),
{
}

/// The next track is the one behind the current one; behind the last one the first if
/// repeating, and nothing otherwise. When shuffling it is drawn. The queue itself stays.
pub proof fn law_next_track(q: &mut PlayQueue, random: usize, b: bool)
    requires
        call_ensures(PlayQueue::advance, (q, random), b),
        old(q).tracks@.len() <= usize::MAX,
    ensures
        final(q).tracks@ == old(q).tracks@,
        final(q).paused == old(q).paused,
        final(q).repeat == old(q).repeat && final(q).shuffle == old(q).shuffle,
        final(q).last_pos_ms == old(q).last_pos_ms,
        final(q).resume_to == old(q).resume_to,
        final(q).playing == b,
        !b ==> final(q).current == old(q).current,
        old(q).tracks@.len() == 0 ==> !b,
        old(q).tracks@.len() > 0 && old(q).shuffle ==> b && (final(q).current matches Some(i) && i
            == random as nat % old(q).tracks@.len()),
        old(q).tracks@.len() > 0 && !old(q).shuffle ==> {
            &&& (old(q).current matches Some(i) && i + 1 < old(q).tracks@.len()) ==> b
                && final(q).current == Some((old(q).current->0 + 1) as usize)
            &&& !(old(q).current matches Some(i) && i + 1 < old(q).tracks@.len()) ==> {
                &&& b <==> old(q).repeat
                &&& b ==> final(q).current == Some(0usize)
            }
        },
{
}

/// Going back leads to the track before; from the first it leads to the first.
pub proof fn law_previous_track(q: &mut PlayQueue, b: bool)
    requires
        call_ensures(PlayQueue::prev_track, (q,), b),
    ensures
        b <==> old(q).current is Some,
        !b ==> *final(q) == *old(q),
        b ==> {
            &&& final(q).tracks@ == old(q).tracks@
            &&& final(q).playing
            &&& final(q).paused == old(q).paused
            &&& old(q).current->0 > 0 ==> final(q).current == Some((old(q).current->0 - 1) as usize)
            &&& old(q).current->0 == 0 ==> final(q).current == Some(0usize)
        },
        final(q).repeat == old(q).repeat && final(q).shuffle == old(q).shuffle,
        final(q).last_pos_ms == old(q).last_pos_ms && final(q).resume_to == old(q).resume_to,
{
}

/// Going on and back again leads to where it started.
pub proof fn law_next_and_back(
    q: &mut PlayQueue,
    random: usize,
    b: bool,
    p: &mut PlayQueue,
    c: bool,
)
    requires
        call_ensures(PlayQueue::advance, (q, random), b),
        call_ensures(PlayQueue::prev_track, (p,), c),
        *old(p) == *final(q),
        old(q).current matches Some(i) && i + 1 < old(q).tracks@.len(),
        !old(q).shuffle,
        old(q).tracks@.len() <= usize::MAX,
    ensures
        b && c,
        final(p).current == old(q).current,
        final(p).tracks@ == old(q).tracks@,
{
}

/// Tracks that are queued go behind the others and change nothing else; one that is to be played
/// now becomes the current one.
pub proof fn law_queued_tracks_go_last(
    q: &mut PlayQueue,
    t: Track,
    u: (),
    p: &mut PlayQueue,
    ts: Vec<Track>,
    v: (),
    n: &mut PlayQueue,
    w: (),
)
    requires
        call_ensures(PlayQueue::enqueue_track, (q, t), u),
        call_ensures(PlayQueue::enqueue_tracks, (p, ts), v),
        call_ensures(PlayQueue::play_track_now, (n, t), w),
    ensures
        final(q).tracks@ == old(q).tracks@ + seq![t],
        final(q).current == old(q).current && final(q).playing == old(q).playing
            && final(q).paused == old(q).paused,
        final(p).tracks@ == old(p).tracks@ + ts@,
        final(p).current == old(p).current && final(p).playing == old(p).playing
            && final(p).paused == old(p).paused,
        final(n).tracks@ == old(n).tracks@ + seq![t],
        final(n).current matches Some(i) && i == old(n).tracks@.len() as usize,
        final(n).playing,
        *final(q) == (PlayQueue { tracks: final(q).tracks, ..*old(q) }),
        *final(p) == (PlayQueue { tracks: final(p).tracks, ..*old(p) }),
        *final(n) == (PlayQueue {
            tracks: final(n).tracks,
            current: final(n).current,
            playing: true,
            ..*old(n)
        }),
{
    assert(old(q).tracks@.push(t) =~= old(q).tracks@ + seq![t]);
    assert(old(n).tracks@.push(t) =~= old(n).tracks@ + seq![t]);
}

/// Clearing leaves nothing to play; a jump leads to the place asked for if it is in the queue,
/// and nowhere otherwise.
pub proof fn law_clear_and_jump(
    q: &mut PlayQueue,
    u: (),
    p: &mut PlayQueue,
    i: usize,
    b: bool,
    f: PlayQueue,
)
    requires
        call_ensures(PlayQueue::clear_queue, (q,), u),
        call_ensures(PlayQueue::jump_to, (p, i), b),
        call_ensures(PlayQueue::new, (), f),
    ensures
        final(q).tracks@.len() == 0 && final(q).current is None && !final(q).playing
            && !final(q).paused,
        final(q).repeat == old(q).repeat && final(q).shuffle == old(q).shuffle,
        b <==> i < old(p).tracks@.len(),
        b ==> final(p).current == Some(i) && final(p).playing && final(p).tracks@ == old(
            p,
        ).tracks@ && final(p).paused == old(p).paused,
        !b ==> *final(p) == *old(p),
        f.tracks@.len() == 0 && f.current is None && !f.playing && !f.paused && !f.repeat
            && !f.shuffle && f.last_pos_ms == 0 && f.resume_to is None,
        final(q).last_pos_ms == old(q).last_pos_ms && final(q).resume_to == old(q).resume_to,
        final(p).repeat == old(p).repeat && final(p).shuffle == old(p).shuffle,
        final(p).last_pos_ms == old(p).last_pos_ms && final(p).resume_to == old(p).resume_to,
{
}

/// Taking a track out leaves the others in their order, and the current track stays current; if
/// it is the one that went, the next one is, or the last one.
pub proof fn law_removal_closes_the_gap(q: &mut PlayQueue, i: usize, u: (), k: int)
    requires
        call_ensures(PlayQueue::remove_from_queue, (q, i), u),
        old(q).wf(),
        i < old(q).tracks@.len(),
    ensures
        final(q).tracks@.len() == old(q).tracks@.len() - 1,
        0 <= k < i ==> final(q).tracks@[k] == old(q).tracks@[k],
        i <= k < final(q).tracks@.len() ==> final(q).tracks@[k] == old(q).tracks@[k + 1],
        old(q).current is None ==> final(q).current is None,
        old(q).current matches Some(c) ==> {
            &&& c != i ==> (final(q).current matches Some(d) && d < final(q).tracks@.len()
                && final(q).tracks@[d as int] == old(q).tracks@[c as int])
            &&& c == i && final(q).tracks@.len() == 0 ==> final(q).current is None
            &&& c == i && i < final(q).tracks@.len() ==> final(q).current == Some(i)
            &&& c == i && 0 < final(q).tracks@.len() <= i ==> final(q).current == Some(
                (i - 1) as usize,
            )
        },
        final(q).playing == old(q).playing && final(q).paused == old(q).paused,
        *final(q) == (PlayQueue {
            tracks: final(q).tracks,
            current: final(q).current,
            ..*old(q)
        }),
{
}

/// A track outside the queue cannot be taken out of it.
pub proof fn law_removal_outside_changes_nothing(q: &mut PlayQueue, i: usize, u: ())
    requires
        call_ensures(PlayQueue::remove_from_queue, (q, i), u),
        i >= old(q).tracks@.len(),
    ensures
        *final(q) == *old(q),
{
}

/// Loving a track marks every copy of it and no other; what is not in the library, or was not
/// stored, is left as it is.
pub proof fn law_loving_marks_every_copy(
    q: &mut PlayQueue,
    id: i64,
    loved: bool,
    stored: bool,
    r: LovedStep,
    k: int,
)
    requires
        call_ensures(PlayQueue::toggle_loved, (q, id, loved, stored), r),
        0 <= k < old(q).tracks@.len(),
    ensures
        r == LovedStep::NotInLibrary <==> id <= 0,
        r == LovedStep::NotStored <==> id > 0 && !stored,
        r == LovedStep::Done <==> id > 0 && stored,
        r != LovedStep::Done ==> *final(q) == *old(q),
        final(q).tracks@.len() == old(q).tracks@.len(),
        r == LovedStep::Done ==> {
            &&& old(q).tracks@[k].id == id ==> final(q).tracks@[k] == (Track {
                loved,
                ..old(q).tracks@[k]
            })
            &&& old(q).tracks@[k].id != id ==> final(q).tracks@[k] == old(q).tracks@[k]
        },
        final(q).current == old(q).current && final(q).playing == old(q).playing,
        *final(q) == (PlayQueue { tracks: final(q).tracks, ..*old(q) }),
{
}

/// A start hands out the place to resume from, once, and fills in a rate that was not known, of
/// the current track only.
pub proof fn law_resume_is_handed_out_once(
    q: &mut PlayQueue,
    spec: StreamSpec,
    r: Option<Span>,
    p: &mut PlayQueue,
    s: Option<Span>,
    k: usize,
)
    requires
        call_ensures(PlayQueue::on_started, (q, spec), r),
        call_ensures(PlayQueue::on_started, (p, spec), s),
        *old(p) == *final(q),
        old(q).wf(),
        k < old(q).tracks@.len(),
    ensures
        r == old(q).resume_to,
        s is None,
        final(q).playing,
        final(q).current == old(q).current,
        final(q).tracks@.len() == old(q).tracks@.len(),
        old(q).current != Some(k) || old(q).tracks@[k as int].sample_rate is Some
            ==> final(q).tracks@[k as int] == old(q).tracks@[k as int],
        old(q).current == Some(k) && old(q).tracks@[k as int].sample_rate is None
            ==> final(q).tracks@[k as int] == (Track {
            sample_rate: Some(spec.rate),
            ..old(q).tracks@[k as int]
        }),
        *final(q) == (PlayQueue {
            tracks: final(q).tracks,
            playing: true,
            resume_to: None,
            ..*old(q)
        }),
{
}

/// A position in frames becomes whole seconds for show and milliseconds to resume from, at the
/// current track's rate.
pub proof fn law_position_is_frames_at_the_rate(
    q: &mut PlayQueue,
    frames: u64,
    t: Track,
    r: Option<u64>,
)
    requires
        call_ensures(PlayQueue::on_position, (q, frames), r),
        frames * 1000 <= u64::MAX,
        old(q).current matches Some(i) && i < old(q).tracks@.len() && t == old(q).tracks@[i as int],
    ensures
        t.sample_rate is None || t.sample_rate == Some(0u32) ==> r is None && *final(q) == *old(q),
        t.sample_rate matches Some(rate) ==> rate > 0 ==> {
            &&& r matches Some(secs)
            &&& secs * rate <= frames < (secs + 1) * rate
            &&& final(q).last_pos_ms * rate <= frames * 1000 < (final(q).last_pos_ms + 1) * rate
        },
        final(q).tracks == old(q).tracks && final(q).current == old(q).current,
        final(q).playing == old(q).playing && final(q).paused == old(q).paused,
        *final(q) == (PlayQueue { last_pos_ms: final(q).last_pos_ms, ..*old(q) }),
{
    if t.sample_rate is Some && t.sample_rate->0 > 0 {
        let rate = t.sample_rate->0 as int;
        let a = frames as int / rate;
        let b = frames * 1000 / rate;
        vstd::arithmetic::div_mod::lemma_fundamental_div_mod(frames as int, rate);
        vstd::arithmetic::div_mod::lemma_fundamental_div_mod(frames * 1000, rate);
        assert(a <= frames && b <= frames * 1000 && a >= 0 && b >= 0) by (nonlinear_arith)
            requires
                rate >= 1,
                frames == rate * a + frames as int % rate,
                frames * 1000 == rate * b + (frames * 1000) % rate,
                0 <= frames as int % rate < rate,
                0 <= (frames * 1000) % rate < rate,
        ;
        assert(a * rate == rate * a && b * rate == rate * b && (a + 1) * rate == rate * a + rate && (b
            + 1) * rate == rate * b + rate) by (nonlinear_arith);
    }
}

/// A restored queue is the one that was saved, and does not play; its position is kept for the
/// first start.
pub proof fn law_restored_queue_waits(
    q: &mut PlayQueue,
    tracks: Vec<Track>,
    current: Option<usize>,
    ms: Option<u64>,
    u: (),
)
    requires
        call_ensures(PlayQueue::restore, (q, tracks, current, ms), u),
    ensures
        final(q).tracks == tracks,
        final(q).current == current,
        ms is None ==> final(q).resume_to is None,
        ms matches Some(m) ==> (final(q).resume_to matches Some(s) && s.nanos == m * 1_000_000),
        final(q).playing == old(q).playing && final(q).paused == old(q).paused,
        final(q).repeat == old(q).repeat && final(q).shuffle == old(q).shuffle,
        final(q).last_pos_ms == old(q).last_pos_ms,
{
}

/// What comes next is everything behind the current track, or the whole queue.
pub proof fn law_up_next_is_behind_the_current(
    q: PlayQueue,
    r: (usize, usize),
    u: &mut PlayQueue,
    v: (),
)
    requires
        call_ensures(PlayQueue::up_next, (&q,), r),
        call_ensures(PlayQueue::seek_to, (u,), v),
        q.wf(),
    ensures
        r.1 == q.tracks@.len(),
        q.current is None ==> r.0 == 0,
        q.current matches Some(c) ==> r.0 == c + 1,
        final(u).playing && !final(u).paused,
        final(u).tracks == old(u).tracks && final(u).current == old(u).current,
        final(u).last_pos_ms == old(u).last_pos_ms && final(u).resume_to == old(u).resume_to,
{
}

/// A draw falls into the queue, and shuffling keeps every track.
pub proof fn law_draws_and_shuffles<T>(
    random: usize,
    len: usize,
    i: usize,
    v: &mut [T],
    clock: Option<u64>,
    u: (),
)
    requires
        call_ensures(pseudo_random, (random, len), i),
        call_ensures(shuffle_vec::<T>, (v, clock), u),
    ensures
        len > 0 ==> i == random % len,
        final(v)@.len() == old(v)@.len(),
        final(v)@.to_multiset() == old(v)@.to_multiset(),
{
    law_shuffle_is_a_permutation(old(v)@, old(v)@.len() - 1, first_seed(clock));
}

/// The number that follows another in the generator behind shuffling.
pub open spec fn drawn_after(x: u64) -> u64 {
    let a = x ^ (x << 13u32);
    let b = a ^ (a >> 7u32);
    b ^ (b << 17u32)
}

/// Shuffling draws for every place from the last one down: the last place gets the track that the
/// first draw names, and the places before it are shuffled alike by the draws that follow.
pub proof fn law_shuffle_goes_by_the_draws<T>(
    v: &mut [T],
    clock: Option<u64>,
    seed: u64,
    next: u64,
    u: (),
    j: int,
    k: int,
)
    requires
        call_ensures(shuffle_vec::<T>, (v, clock), u),
        clock matches Some(c) ==> seed == c | 1,
        clock is None ==> seed == 0x9E37_79B9u64 | 1,
        next == drawn_after(seed),
        old(v)@.len() >= 2,
        j == next as int % old(v)@.len() as int,
        0 <= k < old(v)@.len() - 1,
    ensures
        final(v)@.last() == old(v)@[j],
        ({
            let n = old(v)@.len() - 1;
            let swapped = old(v)@.update(n, old(v)@[j]).update(j, old(v)@[n]);
            final(v)@[k] == shuffled(swapped.take(n), n - 1, next)[k]
        }),
{
    let s = old(v)@;
    let n = s.len() - 1;
    let x = swapped(s, n, j);
    assert(next_seed(seed) == next);
    assert(0 <= j <= n);
    lemma_shuffle_front(x, n - 1, next);
    assert(x =~= s.update(n, s[j]).update(j, s[n]));
    assert(x[n] == s[j]);
}

proof fn lemma_shuffle_front<T>(v: Seq<T>, i: int, seed: u64)
    requires
        0 <= i < v.len() - 1,
    ensures
        shuffled(v, i, seed).len() == v.len(),
        shuffled(v, i, seed).last() == v.last(),
        shuffled(v, i, seed).take(v.len() - 1) == shuffled(v.take(v.len() - 1), i, seed),
    decreases i,
{
    let n = v.len() - 1;
    let f = v.take(n);
    if i > 0 {
        let s = next_seed(seed);
        let j = (s as int) % (i + 1);
        assert(0 <= j <= i);
        let x = swapped(v, i, j);
        let y = swapped(f, i, j);
        assert(x.take(n) =~= y);
        assert(x.last() == v.last());
        lemma_shuffle_front(x, i - 1, s);
    }
}

} // verus!
