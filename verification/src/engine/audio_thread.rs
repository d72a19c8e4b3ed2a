//! The audio thread: what each control message does, and how positions are counted.
use crate::engine::{Ctl, Stats};
use crate::format::StreamSpec;
use crate::sink::{playable, silence, silence_for};
use std::collections::VecDeque;
use vstd::prelude::*;

verus! {

/// The real-time priority that the thread asks for.
pub const AUDIO_RT_PRIO: i32 = 80;

/// Something that waits for its turn.
pub enum Next {
    /// A segment: its stream, its ring, and the position it starts from.
    Open(StreamSpec, rtrb::Consumer<u8>, u64),
    Finish { quit: bool },
    Quit,
}

/// How a segment ended.
#[derive(Clone, Copy, Debug, PartialEq, Eq, Structural)]
pub enum Outcome {
    /// Played to its end.
    Drained,
    /// Cut off.
    Flushed,
    Quit,
}

/// What a message means for the segment being played.
#[derive(Clone, Copy, Debug, PartialEq, Eq, Structural)]
pub enum SegmentStep {
    Go,
    Pause,
    Leave(Outcome),
}

/// The state of the audio thread between messages.
pub struct AudioThread {
    pub pending: VecDeque<Next>,
    pub stats: Stats,
}

/// What a message queues up, if it does.
pub open spec fn queued(ctl: Ctl) -> Option<Next> {
    match ctl {
        Ctl::Open { spec, consumer, pos_base } => Some(Next::Open(spec, consumer, pos_base)),
        Ctl::Finish { quit } => Some(Next::Finish { quit }),
        _ => None,
    }
}

/// The queue behind a message.
pub open spec fn pending_after(pending: Seq<Next>, ctl: Option<Ctl>) -> Seq<Next> {
    match ctl {
        Some(c) => match queued(c) {
            Some(n) => pending.push(n),
            None => pending,
        },
        None => pending,
    }
}

impl AudioThread {
    pub fn new(stats: Stats) -> (t: Self)
        ensures
            t.stats == stats,
            t.pending@ == Seq::<Next>::empty(),
    {
        AudioThread { pending: VecDeque::new(), stats }
    }

    /// The first thing that waits for its turn.
    pub fn next_directive(&mut self) -> (r: Option<Next>)
        ensures
            final(self).stats == old(self).stats,
            if old(self).pending@.len() > 0 {
                r == Some(old(self).pending@[0]) && final(self).pending@ == old(self).pending@.skip(1)
            } else {
                r is None && final(self).pending@ == old(self).pending@
            },
    {
        let ghost before = self.pending@;
        let r = self.pending.pop_front();
        proof {
            if before.len() > 0 {
                assert(self.pending@ =~= before.skip(1));
            }
        }
        r
    }

    /// A message while nothing is playing (`None`: the sender is gone). Messages about a
    /// segment that is already over mean nothing.
    pub fn on_idle(ctl: Option<Ctl>) -> (r: Option<Next>)
        ensures
            r == (match ctl {
                Some(Ctl::Quit) | None => Some(Next::Quit),
                Some(c) => queued(c),
            }),
    {
        match ctl {
            Some(Ctl::Open { spec, consumer, pos_base }) => {
                Some(Next::Open(spec, consumer, pos_base))
            },
            Some(Ctl::Finish { quit }) => Some(Next::Finish { quit }),
            Some(Ctl::Flush) => None,
            Some(Ctl::Pause) => None,
            Some(Ctl::Resume) => None,
            Some(Ctl::Quit) => Some(Next::Quit),
            None => Some(Next::Quit),
        }
    }

    /// A message (or none) while a segment is playing. A segment plays on to its end even
    /// if the sender is gone.
    pub fn on_playing(&mut self, ctl: Option<Ctl>) -> (s: SegmentStep)
        ensures
            final(self).stats == old(self).stats,
            final(self).pending@ == pending_after(old(self).pending@, ctl),
            s == (match ctl {
                Some(Ctl::Flush) => SegmentStep::Leave(Outcome::Flushed),
                Some(Ctl::Quit) => SegmentStep::Leave(Outcome::Quit),
                Some(Ctl::Pause) => SegmentStep::Pause,
                _ => SegmentStep::Go,
            }),
    {
        match ctl {
            Some(Ctl::Flush) => SegmentStep::Leave(Outcome::Flushed),
            Some(Ctl::Quit) => SegmentStep::Leave(Outcome::Quit),
            Some(Ctl::Pause) => SegmentStep::Pause,
            Some(Ctl::Resume) => SegmentStep::Go,
            Some(Ctl::Open { spec, consumer, pos_base }) => {
                self.pending.push_back(Next::Open(spec, consumer, pos_base));
                SegmentStep::Go
            },
            Some(Ctl::Finish { quit }) => {
                self.pending.push_back(Next::Finish { quit });
                SegmentStep::Go
            },
            None => SegmentStep::Go,
        }
    }

    /// A message while paused. `Go` means that playback resumes, `Pause` that it does not.
    pub fn on_paused(&mut self, ctl: Ctl) -> (s: SegmentStep)
        ensures
            final(self).stats == old(self).stats,
            final(self).pending@ == pending_after(old(self).pending@, Some(ctl)),
            s == (match ctl {
                Ctl::Resume => SegmentStep::Go,
                Ctl::Flush => SegmentStep::Leave(Outcome::Flushed),
                Ctl::Quit => SegmentStep::Leave(Outcome::Quit),
                _ => SegmentStep::Pause,
            }),
    {
        match ctl {
            Ctl::Resume => SegmentStep::Go,
            Ctl::Flush => SegmentStep::Leave(Outcome::Flushed),
            Ctl::Quit => SegmentStep::Leave(Outcome::Quit),
            Ctl::Open { spec, consumer, pos_base } => {
                self.pending.push_back(Next::Open(spec, consumer, pos_base));
                SegmentStep::Pause
            },
            Ctl::Finish { quit } => {
                self.pending.push_back(Next::Finish { quit });
                SegmentStep::Pause
            },
            Ctl::Pause => SegmentStep::Pause,
        }
    }

    /// A segment is over. Cutting it off also drops everything that waited behind it.
    pub fn on_segment_over(&mut self, outcome: Outcome, xruns: u64)
        requires
            old(self).stats.xruns + xruns <= u64::MAX,
        ensures
            final(self).stats == (Stats {
                xruns: (old(self).stats.xruns + xruns) as u64,
                ..old(self).stats
            }),
            final(self).pending@ == (if outcome == Outcome::Flushed {
                Seq::empty()
            } else {
                old(self).pending@
            }),
    {
        self.stats.xruns = self.stats.xruns + xruns;
        if outcome == Outcome::Flushed {
            self.pending.clear();
        }
    }
}

/// Counts the frames of a segment and decides when to report a position.
#[derive(Clone, Copy, Debug, PartialEq, Eq, Structural)]
pub struct SegmentClock {
    /// Bytes to one frame.
    pub fb: usize,
    /// Bytes to write between two looks at the control channel.
    pub cap: usize,
    /// Frames between two reports.
    pub pos_step: u64,
    pub pos_base: u64,
    pub seg_start: u64,
    pub last_pos: u64,
}

impl SegmentClock {
    pub open spec fn wf(self) -> bool {
        &&& self.fb > 0
        &&& self.cap as int % self.fb as int == 0
        &&& self.pos_step >= 1
        &&& self.seg_start <= self.last_pos
    }

    /// A clock for a segment that starts now: one period at a time, a report every tenth
    /// of a second.
    pub fn new(spec: StreamSpec, pos_base: u64, period: i64, frames: u64) -> (c: Self)
        requires
            playable(spec),
            period >= 0,
            period * spec.frame_bytes() <= usize::MAX,
        ensures
            c.wf(),
            c == (SegmentClock {
                fb: spec.frame_bytes() as usize,
                cap: (period * spec.frame_bytes()) as usize,
                pos_step: if spec.rate < 10 {
                    1
                } else {
                    (spec.rate / 10) as u64
                },
                pos_base,
                seg_start: frames,
                last_pos: frames,
            }),
    {
        let fb: usize = spec.bytes_per_frame();
        assert(fb >= 1 && period <= usize::MAX) by (nonlinear_arith)
            requires
                fb == spec.fmt.sample_bytes() * spec.channels,
                spec.fmt.sample_bytes() >= 2,
                spec.channels >= 1,
                period >= 0,
                period * fb <= usize::MAX,
        ;
        let cap: usize = period as usize * fb;
        proof {
            vstd::arithmetic::div_mod::lemma_mod_multiples_basic(period as int, fb as int);
        }
        let pos_step: u64 = if spec.rate < 10 {
            1
        } else {
            (spec.rate / 10) as u64
        };
        SegmentClock { fb, cap, pos_step, pos_base, seg_start: frames, last_pos: frames }
    }

    /// Takes note of `n` bytes written. Returns the position to report, if one is due: the
    /// segment's base and the frames played since it started.
    pub fn advance(&mut self, stats: &mut Stats, n: usize) -> (r: Option<u64>)
        requires
            old(self).wf(),
            old(stats).frames >= old(self).last_pos,
            old(stats).frames + n + old(self).pos_base <= u64::MAX,
        ensures
            final(self).wf(),
            *final(stats) == (Stats {
                frames: (old(stats).frames + n as int / old(self).fb as int) as u64,
                ..*old(stats)
            }),
            final(stats).frames >= final(self).last_pos,
            if final(stats).frames - old(self).last_pos >= old(self).pos_step {
                &&& r == Some(
                    (old(self).pos_base + (final(stats).frames - old(self).seg_start)) as u64,
                )
                &&& *final(self) == (SegmentClock { last_pos: final(stats).frames, ..*old(self) })
            } else {
                r is None && *final(self) == *old(self)
            },
    {
        assert(0 <= n as int / self.fb as int <= n) by (nonlinear_arith)
            requires
                n >= 0,
                self.fb >= 1,
        ;
        stats.frames = stats.frames + (n / self.fb) as u64;
        if stats.frames - self.last_pos >= self.pos_step {
            self.last_pos = stats.frames;
            return Some(self.pos_base + (stats.frames - self.seg_start));
        }
        None
    }
}

/// One period of silence, written over and over to a paused device that cannot pause by
/// itself.
pub fn pause_silence(spec: StreamSpec, period: i64) -> (v: Vec<u8>)
    requires
        playable(spec),
        (if period < 2 {
            2
        } else {
            period as int
        }) * spec.frame_bytes() <= usize::MAX,
    ensures
        v@ == silence(
            spec,
            if spec.is_dop {
                if period < 2 {
                    2
                } else {
                    period as nat
                }
            } else {
                if period < 1 {
                    1
                } else {
                    period as nat
                }
            },
        ),
{
    let least: i64 = if spec.is_dop {
        2
    } else {
        1
    };
    let p: i64 = if period < least {
        least
    } else {
        period
    };
    let ghost fb = spec.frame_bytes() as int;
    assert(fb >= 1) by (nonlinear_arith)
        requires
            fb == spec.fmt.sample_bytes() * spec.channels,
            spec.fmt.sample_bytes() >= 2,
            spec.channels >= 1,
    ;
    assert(p * fb <= usize::MAX && p <= usize::MAX) by (nonlinear_arith)
        requires
            1 <= p,
            p <= (if period < 2 {
                2
            } else {
                period as int
            }),
            (if period < 2 {
                2
            } else {
                period as int
            }) * fb <= usize::MAX,
            fb >= 1,
    ;
    silence_for(spec, p as usize)
}

/// A pause never loses a segment: whatever arrives while playing or paused stands in the
/// queue in the order it came.
pub proof fn law_pending_keeps_order(pending: Seq<Next>, a: Ctl, b: Ctl)
    requires
        queued(a) is Some,
        queued(b) is Some,
    ensures
        pending_after(pending_after(pending, Some(a)), Some(b)) == pending + seq![
            queued(a)->0,
            queued(b)->0,
        ],
{
    assert(pending.push(queued(a)->0).push(queued(b)->0) =~= pending + seq![
        queued(a)->0,
        queued(b)->0,
    ]);
}

/// Reported positions only move forward, by at least a report's distance.
pub proof fn law_positions_move_forward(c: SegmentClock, earlier: nat, later: nat)
    requires
        c.seg_start <= earlier,
        later - earlier >= c.pos_step,
    ensures
        c.pos_base + (later - c.seg_start) >= c.pos_base + (earlier - c.seg_start) + c.pos_step,
{
}

/// Messages wait in the order they came: one that is to be played, or that ends the playing, goes
/// behind all that wait, whether it comes while playing or while paused; no other is kept.
pub proof fn law_messages_wait_in_order(
    t: &mut AudioThread,
    ctl: Ctl,
    s: SegmentStep,
    x: &mut AudioThread,
    y: SegmentStep,
    k: int,
)
    requires
        call_ensures(AudioThread::on_playing, (t, Some(ctl)), s),
        call_ensures(AudioThread::on_paused, (x, ctl), y),
    ensures
        ctl is Open || ctl is Finish ==> {
            &&& final(t).pending@.len() == old(t).pending@.len() + 1
            &&& final(x).pending@.len() == old(x).pending@.len() + 1
            &&& 0 <= k < old(t).pending@.len() ==> final(t).pending@[k] == old(t).pending@[k]
            &&& 0 <= k < old(x).pending@.len() ==> final(x).pending@[k] == old(x).pending@[k]
        },
        ctl matches Ctl::Open { spec, consumer, pos_base } ==> {
            &&& final(t).pending@.last() == Next::Open(spec, consumer, pos_base)
            &&& final(x).pending@.last() == Next::Open(spec, consumer, pos_base)
        },
        ctl matches Ctl::Finish { quit } ==> {
            &&& final(t).pending@.last() == (Next::Finish { quit })
            &&& final(x).pending@.last() == (Next::Finish { quit })
        },
        !(ctl is Open) && !(ctl is Finish) ==> final(t).pending@ == old(t).pending@
            && final(x).pending@ == old(x).pending@,
        final(t).stats == old(t).stats,
        final(x).stats == old(x).stats,
{
}

/// Playing goes on until it is flushed, paused or quit; a pause goes on until it is resumed,
/// flushed or quit. A sender that is gone does not end what plays.
pub proof fn law_only_its_message_ends_a_segment(
    t: &mut AudioThread,
    ctl: Ctl,
    s: SegmentStep,
    x: &mut AudioThread,
    y: SegmentStep,
    g: &mut AudioThread,
    z: SegmentStep,
)
    requires
        call_ensures(AudioThread::on_playing, (t, Some(ctl)), s),
        call_ensures(AudioThread::on_paused, (x, ctl), y),
        call_ensures(AudioThread::on_playing, (g, None), z),
    ensures
        s == SegmentStep::Leave(Outcome::Flushed) <==> ctl is Flush,
        s == SegmentStep::Leave(Outcome::Quit) <==> ctl is Quit,
        s == SegmentStep::Pause <==> ctl is Pause,
        s == SegmentStep::Go <==> !(ctl is Flush) && !(ctl is Quit) && !(ctl is Pause),
        y == SegmentStep::Leave(Outcome::Flushed) <==> ctl is Flush,
        y == SegmentStep::Leave(Outcome::Quit) <==> ctl is Quit,
        y == SegmentStep::Go <==> ctl is Resume,
        y == SegmentStep::Pause <==> !(ctl is Flush) && !(ctl is Quit) && !(ctl is Resume),
        z == SegmentStep::Go,
        final(g).pending@ == old(g).pending@,
{
}

/// An idle thread takes what is to be played or finished, and quits when told to or when the
/// sender is gone. Anything else speaks of a segment that is over.
pub proof fn law_idle_thread_takes_the_next(ctl: Option<Ctl>, r: Option<Next>)
    requires
        call_ensures(AudioThread::on_idle, (ctl,), r),
    ensures
        ctl is None ==> r == Some(Next::Quit),
        ctl matches Some(c) ==> {
            &&& c is Quit ==> r == Some(Next::Quit)
            &&& c matches Ctl::Open { spec, consumer, pos_base } ==> r == Some(
                Next::Open(spec, consumer, pos_base),
            )
            &&& c matches Ctl::Finish { quit } ==> r == Some(Next::Finish { quit })
            &&& c is Flush || c is Pause || c is Resume ==> r is None
        },
{
}

/// What waits is taken from the front, one at a time.
pub proof fn law_first_come_first_played(t: &mut AudioThread, r: Option<Next>, k: int)
    requires
        call_ensures(AudioThread::next_directive, (t,), r),
    ensures
        old(t).pending@.len() == 0 ==> r is None && final(t).pending@.len() == 0,
        old(t).pending@.len() > 0 ==> {
            &&& r == Some(old(t).pending@[0])
            &&& final(t).pending@.len() == old(t).pending@.len() - 1
            &&& 0 <= k < final(t).pending@.len() ==> final(t).pending@[k] == old(t).pending@[k + 1]
        },
        final(t).stats == old(t).stats,
{
}

/// A segment that was cut off takes all that waits with it; one that ended by itself, or by
/// quitting, does not. Its underruns are added up in any case.
pub proof fn law_flush_drops_what_waits(t: &mut AudioThread, outcome: Outcome, xruns: u64, u: ())
    requires
        call_ensures(AudioThread::on_segment_over, (t, outcome, xruns), u),
        old(t).stats.xruns + xruns <= u64::MAX,
    ensures
        outcome == Outcome::Flushed ==> final(t).pending@.len() == 0,
        outcome != Outcome::Flushed ==> final(t).pending@ == old(t).pending@,
        final(t).stats.xruns == old(t).stats.xruns + xruns,
        final(t).stats.frames == old(t).stats.frames,
        final(t).stats.sched == old(t).stats.sched,
{
}

/// A new thread has the given counts and nothing waiting.
pub proof fn law_new_thread_waits_for_nothing(stats: Stats, t: AudioThread)
    requires
        call_ensures(AudioThread::new, (stats,), t),
    ensures
        t.stats == stats,
        t.pending@.len() == 0,
{
}

/// The clock counts frames: bytes that were written are so many whole frames more, and a
/// position is reported as soon as a tenth of a second has passed since the last one: the base
/// and the frames since the segment started.
pub proof fn law_positions_count_frames(
    c: &mut SegmentClock,
    stats: &mut Stats,
    frames: nat,
    n: usize,
    r: Option<u64>,
)
    requires
        call_ensures(SegmentClock::advance, (c, stats, n), r),
        old(c).wf(),
        old(stats).frames >= old(c).last_pos,
        old(stats).frames + n + old(c).pos_base <= u64::MAX,
        n == frames * old(c).fb,
    ensures
        final(stats).frames == old(stats).frames + frames,
        final(stats).xruns == old(stats).xruns,
        final(stats).sched == old(stats).sched,
        r is Some <==> old(stats).frames + frames >= old(c).last_pos + old(c).pos_step,
        r matches Some(p) ==> p == old(c).pos_base + (old(stats).frames + frames - old(
            c,
        ).seg_start) && final(c).last_pos == final(stats).frames,
        r is None ==> final(c).last_pos == old(c).last_pos,
        final(c).seg_start == old(c).seg_start,
        final(c).pos_base == old(c).pos_base,
        final(c).pos_step == old(c).pos_step,
        final(c).fb == old(c).fb,
        final(c).cap == old(c).cap,
{
    vstd::arithmetic::div_mod::lemma_div_multiples_vanish(frames as int, c.fb as int);
    assert(frames * c.fb == c.fb * frames) by (nonlinear_arith);
    assert(frames <= n) by (nonlinear_arith)
        requires
            n == frames * c.fb,
            c.fb > 0,
    ;
}

/// A segment's clock starts where the count stands, reports every tenth of a second, and moves
/// whole frames, a period at a time.
pub proof fn law_clock_starts_at_the_segment(
    spec: StreamSpec,
    base: u64,
    period: i64,
    frames: u64,
    c: SegmentClock,
)
    requires
        call_ensures(SegmentClock::new, (spec, base, period, frames), c),
        playable(spec),
        period >= 0,
        period * spec.frame_bytes() <= usize::MAX,
    ensures
        c.pos_base == base,
        c.seg_start == frames,
        c.last_pos == frames,
        c.fb == spec.frame_bytes(),
        c.cap == period * c.fb,
        spec.rate >= 10 ==> c.pos_step * 10 <= spec.rate < (c.pos_step + 1) * 10,
        spec.rate < 10 ==> c.pos_step == 1,
{
}

/// A paused device that cannot pause by itself is fed a period of silence, of one frame at least
/// and, for DoP, of two.
pub proof fn law_pause_is_silent(spec: StreamSpec, period: i64, v: Vec<u8>, i: int)
    requires
        call_ensures(pause_silence, (spec, period), v),
        playable(spec),
        (if period < 2 {
            2
        } else {
            period as int
        }) * spec.frame_bytes() <= usize::MAX,
    ensures
        period >= 2 ==> v@ == silence(spec, period as nat),
        period < 2 && spec.is_dop ==> v@ == silence(spec, 2),
        period < 2 && !spec.is_dop ==> v@ == silence(spec, 1),
        !spec.is_dop && period >= 2 ==> v@.len() == period * spec.frame_bytes(),
        !spec.is_dop && 0 <= i < v@.len() ==> v@[i] == 0,
{
}

} // verus!
