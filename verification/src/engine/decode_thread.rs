//! The decoding thread: the queue, the segments, and what each command does to them.
use crate::convert::{law_packing_goes_by_sample, wire_bytes};
use crate::dsd::DsdSpec;
use crate::engine::{wire_spec, wired, Cmd};
use crate::error::Error;
use crate::format::{AlsaFmt, DeviceFormats, StreamSpec, DOP_BITS};
use crate::ring::{
    capacity, coming, popped, push_block, push_step_of, pushed, reads_in_order, ring_for_spec,
    ring_frames, room, sent, write_fitting, writes_in_order, PushState, PushStep,
};
use crate::sink::{frames_of_ms, playable, silence, silence_for};
use crate::span::Span;
use std::collections::VecDeque;
use vstd::prelude::*;
use vstd::string::*;

verus! {

/// Silence in front of a segment, so that a DAC can lock before the music starts.
pub const PREROLL_MS: u32 = 48;

/// Something to play.
pub struct Source {
    pub path: String,
    /// The part to play, where it is not the whole file.
    pub range: Option<(Span, Span)>,
    /// The track of a disc image, counted from zero.
    pub sacd_track: Option<usize>,
}

impl Source {
    pub fn whole(path: String) -> (s: Self)
        ensures
            s == (Source { path, range: None, sacd_track: None }),
    {
        Source { path, range: None, sacd_track: None }
    }

    pub fn sacd(path: String, track: usize) -> (s: Self)
        ensures
            s == (Source { path, range: None, sacd_track: Some(track) }),
    {
        Source { path, range: None, sacd_track: Some(track) }
    }
}

#[derive(Clone, Copy, Debug, PartialEq, Eq, Structural)]
pub enum TrackKind {
    Pcm,
    Dsd { dsd_rate: u32 },
}

/// The track being decoded.
#[derive(Clone, Copy, Debug)]
pub struct Track {
    pub spec: StreamSpec,
    pub range: Option<(Span, Span)>,
    pub kind: TrackKind,
}

/// A stream whose ring can be made.
pub open spec fn ringable(spec: StreamSpec) -> bool {
    playable(spec) && ring_frames(spec.rate as nat) * spec.frame_bytes() <= isize::MAX
}

/// The silence in front of a new segment: always for DoP, for PCM where it is asked for.
pub open spec fn preroll(spec: StreamSpec, pcm: bool) -> Seq<u8> {
    if spec.is_dop || pcm {
        silence(spec, frames_of_ms(spec.rate as nat, PREROLL_MS as nat))
    } else {
        Seq::empty()
    }
}

/// A ring that is about to become a segment.
pub struct Opening {
    pub producer: rtrb::Producer<u8>,
    pub consumer: rtrb::Consumer<u8>,
    pub pos_base: u64,
}

/// Cuts the decoded bytes into segments. A segment is a run of tracks that share a wire
/// format; it has a ring of its own.
pub struct SegmentWriter {
    prod: Option<rtrb::Producer<u8>>,
    cur: Option<StreamSpec>,
    next_pos_base: u64,
    preroll_pcm: bool,
    /// The ring of the segment that was closed last, until the audio thread knows.
    retired: Option<rtrb::Producer<u8>>,
}

impl SegmentWriter {
    /// The stream of the open segment.
    pub closed spec fn segment(self) -> Option<StreamSpec> {
        self.cur
    }

    /// The position that the next segment starts counting from.
    pub closed spec fn base(self) -> u64 {
        self.next_pos_base
    }

    pub closed spec fn prerolls(self) -> bool {
        self.preroll_pcm
    }

    /// All bytes written to the open segment.
    pub closed spec fn written(self) -> Seq<u8> {
        match self.prod {
            Some(p) => pushed(p),
            None => Seq::empty(),
        }
    }

    /// All bytes that the open segment's reader will ever get.
    pub closed spec fn sending(self) -> Seq<u8> {
        match self.prod {
            Some(p) => sent(p),
            None => Seq::empty(),
        }
    }

    /// All bytes written to the closed segment whose ring is still held, so that its reader
    /// does not find it drained yet; none if no such ring is.
    pub closed spec fn held(self) -> Option<Seq<u8>> {
        match self.retired {
            Some(p) => Some(pushed(p)),
            None => None,
        }
    }

    /// The closed segment whose ring is held once the open segment is closed.
    pub open spec fn held_when_closed(self) -> Option<Seq<u8>> {
        if self.segment() is Some {
            Some(self.written())
        } else {
            self.held()
        }
    }

    /// The bytes that the open segment's ring is known to have room for.
    pub closed spec fn space(self) -> nat {
        match self.prod {
            Some(p) => room(p),
            None => 0,
        }
    }

    /// What was written to the open segment is the start of what its reader gets.
    pub open spec fn in_order(self) -> bool {
        self.written().is_prefix_of(self.sending())
    }

    /// A ring is open exactly when a segment is.
    pub closed spec fn wf(self) -> bool {
        self.prod is Some <==> self.cur is Some
    }

    pub fn new() -> (w: Self)
        ensures
            w.wf(),
            w.segment() is None,
            w.base() == 0,
            !w.prerolls(),
            w.written() == Seq::<u8>::empty(),
            w.held() is None,
    {
        SegmentWriter {
            prod: None,
            cur: None,
            next_pos_base: 0,
            preroll_pcm: false,
            retired: None,
        }
    }

    pub fn enable_pcm_preroll(&mut self)
        requires
            old(self).wf(),
        ensures
            final(self).wf(),
            final(self).prerolls(),
            final(self).segment() == old(self).segment(),
            final(self).base() == old(self).base(),
            final(self).written() == old(self).written(),
            final(self).sending() == old(self).sending(),
            final(self).held() == old(self).held(),
    {
        self.preroll_pcm = true;
    }

    /// Where the bytes of a stream go: into the open segment, if it shares the wire format
    /// (`None`), else into a new one.
    pub fn producer_for(&self, spec: StreamSpec) -> (r: Option<Opening>)
        requires
            self.wf(),
            ringable(spec),
        ensures
            r is None <==> (self.segment() matches Some(c) && c.wire_eq(spec)),
            r matches Some(o) ==> {
                &&& o.pos_base == self.base()
                &&& pushed(o.producer) == Seq::<u8>::empty()
                &&& popped(o.consumer) == Seq::<u8>::empty()
                &&& capacity(o.producer) == ring_frames(spec.rate as nat) * spec.frame_bytes()
                &&& coming(o.consumer) == sent(o.producer)
                &&& writes_in_order(o.producer)
                &&& reads_in_order(o.consumer)
            },
    {
        if let Some(c) = self.cur {
            if c.same_wire(&spec) {
                return None;
            }
        }
        let (producer, consumer) = ring_for_spec(spec);
        Some(Opening { producer, consumer, pos_base: self.next_pos_base })
    }

    /// Starts the segment that the audio thread has been told of. The preroll goes in front
    /// of it; it always fits.
    pub fn adopt(&mut self, spec: StreamSpec, producer: rtrb::Producer<u8>)
        requires
            old(self).wf(),
            ringable(spec),
            pushed(producer) == Seq::<u8>::empty(),
            capacity(producer) == ring_frames(spec.rate as nat) * spec.frame_bytes(),
        ensures
            final(self).wf(),
            final(self).segment() == Some(spec),
            final(self).base() == 0,
            final(self).prerolls() == old(self).prerolls(),
            final(self).written() == preroll(spec, old(self).prerolls()),
            final(self).sending() == sent(producer),
            final(self).in_order(),
            final(self).held() == old(self).held(),
    {
        let mut prod = producer;
        assert(writes_in_order(prod));
        self.next_pos_base = 0;
        let ghost fb = spec.frame_bytes();
        assert(fb >= 1) by (nonlinear_arith)
            requires
                fb == spec.fmt.sample_bytes() * spec.channels,
                spec.fmt.sample_bytes() >= 2,
                spec.channels >= 1,
        ;
        if spec.is_dop || self.preroll_pcm {
            let ms: u64 = spec.rate as u64 / 1000;
            assert(ms * 48 <= u64::MAX);
            let frames: u64 = ms * 48;
            assert(frames == frames_of_ms(spec.rate as nat, PREROLL_MS as nat)) by (nonlinear_arith)
                requires
                    frames == ms * 48,
                    PREROLL_MS == 48,
                    ms == spec.rate as nat / 1000,
            ;
            let ghost rf = ring_frames(spec.rate as nat);
            assert(frames <= rf);
            assert(frames * fb <= rf * fb && frames <= usize::MAX && frames * fb <= usize::MAX)
                by (nonlinear_arith)
                requires
                    frames <= rf,
                    rf * fb <= isize::MAX,
                    isize::MAX <= usize::MAX,
                    fb >= 1,
                    frames >= 0,
            ;
            let quiet = silence_for(spec, frames as usize);
            proof {
                lemma_silence_len(spec, frames as nat);
            }
            let ghost all = quiet@;
            write_fitting(&mut prod, quiet.as_slice());
            assert(Seq::<u8>::empty() + all =~= all);
        }
        self.prod = Some(prod);
        self.cur = Some(spec);
    }

    /// Pushes as much of `bytes`, from `at` on, as the open segment takes. It stops before the
    /// end only if there is less room than a frame, or the reader is gone.
    pub fn push(&mut self, bytes: &[u8], at: usize, fb: usize) -> (r: (usize, PushState))
        requires
            old(self).wf(),
            at <= bytes@.len(),
            fb > 0,
        ensures
            final(self).wf(),
            final(self).segment() == old(self).segment(),
            final(self).base() == old(self).base(),
            final(self).prerolls() == old(self).prerolls(),
            final(self).held() == old(self).held(),
            at <= r.0 <= bytes@.len(),
            old(self).segment() is Some ==> {
                &&& final(self).written() == old(self).written() + bytes@.subrange(
                    at as int,
                    r.0 as int,
                )
                &&& (r.1 == PushState::Done <==> r.0 == bytes@.len())
                &&& (r.0 < bytes@.len() ==> (r.0 - at) % fb as int == 0)
                &&& (r.1 == PushState::Full ==> push_step_of(
                    false,
                    final(self).space(),
                    (bytes@.len() - r.0) as nat,
                    fb as nat,
                ) == PushStep::Full)
                &&& final(self).sending() == old(self).sending()
                &&& (old(self).in_order() ==> final(self).in_order())
            },
            old(self).segment() is None ==> r == (at, PushState::Gone),
    {
        let mut taken: Option<rtrb::Producer<u8>> = None;
        std::mem::swap(&mut taken, &mut self.prod);
        match taken {
            Some(p) => {
                let mut prod = p;
                let r = push_block(&mut prod, bytes, at, fb);
                self.prod = Some(prod);
                r
            },
            None => (at, PushState::Gone),
        }
    }

    pub fn set_next_pos_base(&mut self, base: u64)
        requires
            old(self).wf(),
        ensures
            final(self).wf(),
            final(self).base() == base,
            final(self).segment() == old(self).segment(),
            final(self).prerolls() == old(self).prerolls(),
            final(self).written() == old(self).written(),
            final(self).sending() == old(self).sending(),
            final(self).held() == old(self).held(),
    {
        self.next_pos_base = base;
    }

    /// Closes the segment: nothing more will be written to it. Its reader is told only by
    /// [`SegmentWriter::release`], so that a message about it can go ahead.
    pub fn close(&mut self)
        requires
            old(self).wf(),
        ensures
            final(self).wf(),
            final(self).segment() is None,
            final(self).base() == old(self).base(),
            final(self).prerolls() == old(self).prerolls(),
            final(self).written() == Seq::<u8>::empty(),
            final(self).held() == old(self).held_when_closed(),
    {
        let mut taken: Option<rtrb::Producer<u8>> = None;
        std::mem::swap(&mut taken, &mut self.prod);
        if taken.is_some() {
            self.retired = taken;
        }
        self.cur = None;
    }

    /// Lets go of the ring of a closed segment: once it has read the rest, its reader finds it
    /// drained.
    pub fn release(&mut self)
        requires
            old(self).wf(),
        ensures
            final(self).wf(),
            final(self).segment() == old(self).segment(),
            final(self).base() == old(self).base(),
            final(self).prerolls() == old(self).prerolls(),
            final(self).written() == old(self).written(),
            final(self).sending() == old(self).sending(),
            final(self).held() is None,
    {
        self.retired = None;
    }

    pub fn has_segment(&self) -> (b: bool)
        requires
            self.wf(),
        ensures
            b == (self.segment() is Some),
    {
        self.prod.is_some()
    }
}

proof fn lemma_silence_len(spec: StreamSpec, frames: nat)
    requires
        playable(spec),
    ensures
        silence(spec, frames).len() <= frames * spec.frame_bytes(),
{
    let ch = spec.channels as nat;
    let fb = spec.frame_bytes();
    if spec.is_dop {
        let e = crate::sink::even(frames);
        let z = crate::dop::silence_bytes(ch, e);
        crate::dop::law_words_are_whole_frames(spec.fmt, ch, z, false);
        assert(e * 2 * ch == e * (2 * ch)) by (nonlinear_arith);
        vstd::arithmetic::div_mod::lemma_div_multiples_vanish(e as int, 2 * ch as int);
        assert((2 * ch) * e == e * (2 * ch)) by (nonlinear_arith);
        assert(z.len() / (2 * ch) == e);
        assert(e * fb <= frames * fb) by (nonlinear_arith)
            requires
                e <= frames,
                fb >= 0,
        ;
    }
}

/// What has to happen outside after a command was applied.
#[derive(Clone, Copy, Debug, PartialEq, Eq, Structural)]
pub enum Reaction {
    Nothing,
    /// Tell the audio thread to flush, and clear the interrupt flag.
    Restart,
    /// Tell the audio thread to pause.
    Pause,
    /// Tell the audio thread to resume.
    Resume,
    /// Tell the audio thread to flush, then seek the decoder and report where it landed.
    SeekPcm(Span),
    /// Tell the audio thread to flush, reset the DoP packer, then seek the DSD reader and
    /// report where it landed.
    SeekDsd(u64),
    /// Tell the audio thread to flush and to quit, then leave.
    Quit,
    /// Tell the audio thread to quit, then leave.
    Leave,
}

/// What the thread does next when no command is waiting.
pub enum Step {
    /// Wait for a command; nothing is decoded while paused.
    AwaitPaused,
    /// Wait for a command; there is nothing to play.
    Await,
    /// Tell the audio thread that nothing more will come, then wait for a command.
    FinishAndAwait,
    /// Open this source and report what came of it.
    Build(Source),
    /// Decode the next block of the current track and push it.
    Produce(StreamSpec),
}

/// The state of the decoding thread.
pub struct DecodeEngine {
    pub queue: VecDeque<Source>,
    pub cur: Option<Track>,
    pub writer: SegmentWriter,
    pub paused: bool,
}

/// DoP frames per second of a DSD stream; at least one.
pub open spec fn dop_rate(dsd_rate: u32) -> nat {
    if dsd_rate < 16 {
        1
    } else {
        (dsd_rate / 16) as nat
    }
}

/// The time in the file that a seek to `d` within a track leads to. Within a part of a
/// file it counts from the part's start, and stops at its end.
pub open spec fn seek_target(range: Option<(Span, Span)>, d: Span) -> nat {
    match range {
        Some((start, end)) => {
            let len = if end.nanos >= start.nanos {
                (end.nanos - start.nanos) as nat
            } else {
                0
            };
            start.nanos as nat + if d.nanos <= len {
                d.nanos as nat
            } else {
                len
            }
        },
        None => d.nanos as nat,
    }
}

impl DecodeEngine {
    pub open spec fn wf(self) -> bool {
        self.writer.wf()
    }

    pub fn new() -> (e: Self)
        ensures
            e.wf(),
            e.queue@ == Seq::<Source>::empty(),
            e.cur is None,
            e.writer.segment() is None,
            e.writer.base() == 0,
            e.writer.prerolls(),
            e.writer.written() == Seq::<u8>::empty(),
            e.writer.held() is None,
            !e.paused,
    {
        let mut writer = SegmentWriter::new();
        writer.enable_pcm_preroll();
        DecodeEngine { queue: VecDeque::new(), cur: None, writer, paused: false }
    }

    /// The frame that a seek leads to can be worked out in 64 bits.
    pub open spec fn can_apply(self, cmd: Cmd) -> bool {
        cmd matches Cmd::Seek(d) ==> (self.cur matches Some(t) ==> (t.kind matches TrackKind::Dsd {
            dsd_rate,
        } ==> d.millis() <= u64::MAX && d.countable(dop_rate(dsd_rate))))
    }

    /// Only the source is queued: no track, no segment, not paused. The ring of a segment that
    /// was open is still held.
    pub open spec fn restarted(self, before: Self, queue: Seq<Source>) -> bool {
        &&& self.wf()
        &&& self.queue@ == queue
        &&& self.cur is None
        &&& self.writer.segment() is None
        &&& self.writer.base() == before.writer.base()
        &&& self.writer.prerolls() == before.writer.prerolls()
        &&& self.writer.held() == before.writer.held_when_closed()
        &&& !self.paused
    }

    /// The writer is as it was.
    pub open spec fn same_writer(self, before: Self) -> bool {
        &&& self.wf()
        &&& self.writer.segment() == before.writer.segment()
        &&& self.writer.base() == before.writer.base()
        &&& self.writer.prerolls() == before.writer.prerolls()
        &&& self.writer.written() == before.writer.written()
        &&& self.writer.sending() == before.writer.sending()
        &&& self.writer.held() == before.writer.held()
    }

    /// Applies a command. `Play` and its kin replace everything; `Enqueue` and its kin add
    /// to the queue; a seek closes the segment and leaves the rest to the report of where
    /// it landed.
    pub fn apply_cmd(&mut self, cmd: Cmd) -> (r: Reaction)
        requires
            old(self).wf(),
            old(self).can_apply(cmd),
        ensures
            match cmd {
                Cmd::Play(p) => r == Reaction::Restart && final(self).restarted(
                    *old(self),
                    seq![Source { path: p, range: None, sacd_track: None }],
                ),
                Cmd::PlayRange { path, start, end } => r == Reaction::Restart && final(self).restarted(
                    *old(self),
                    seq![Source { path, range: Some((start, end)), sacd_track: None }],
                ),
                Cmd::PlaySacd { path, track } => r == Reaction::Restart && final(self).restarted(
                    *old(self),
                    seq![Source { path, range: None, sacd_track: Some(track) }],
                ),
                Cmd::Stop => r == Reaction::Restart && final(self).restarted(
                    *old(self),
                    Seq::empty(),
                ),
                Cmd::Enqueue(p) => r == Reaction::Nothing && final(self).same_writer(*old(self))
                    && final(self).cur == old(self).cur && final(self).paused == old(self).paused
                    && final(self).queue@ == old(self).queue@.push(
                    Source { path: p, range: None, sacd_track: None },
                ),
                Cmd::EnqueueSacd { path, track } => r == Reaction::Nothing
                    && final(self).same_writer(*old(self)) && final(self).cur == old(self).cur
                    && final(self).paused == old(self).paused && final(self).queue@
                    == old(self).queue@.push(
                    Source { path, range: None, sacd_track: Some(track) },
                ),
                Cmd::Pause => r == Reaction::Pause && final(self).same_writer(*old(self))
                    && final(self).queue@ == old(self).queue@ && final(self).cur == old(self).cur
                    && final(self).paused,
                Cmd::Resume => r == Reaction::Resume && final(self).same_writer(*old(self))
                    && final(self).queue@ == old(self).queue@ && final(self).cur == old(self).cur
                    && !final(self).paused,
                Cmd::Seek(d) => {
                    &&& final(self).wf()
                    &&& final(self).queue@ == old(self).queue@
                    &&& final(self).cur == old(self).cur
                    &&& final(self).paused == old(self).paused
                    &&& final(self).writer.base() == old(self).writer.base()
                    &&& final(self).writer.prerolls() == old(self).writer.prerolls()
                    &&& match old(self).cur {
                        None => r == Reaction::Nothing && final(self).same_writer(*old(self)),
                        Some(t) => {
                            &&& final(self).writer.segment() is None
                            &&& final(self).writer.held() == old(self).writer.held_when_closed()
                            &&& match t.kind {
                                TrackKind::Pcm => r matches Reaction::SeekPcm(s) && s.nanos
                                    == seek_target(t.range, d),
                                TrackKind::Dsd { dsd_rate } => r matches Reaction::SeekDsd(f) && f
                                    == d.frames(dop_rate(dsd_rate)),
                            }
                        },
                    }
                },
                Cmd::Quit => {
                    &&& r == Reaction::Quit
                    &&& final(self).wf()
                    &&& final(self).writer.segment() is None
                    &&& final(self).writer.held() == old(self).writer.held_when_closed()
                    &&& final(self).writer.base() == old(self).writer.base()
                    &&& final(self).writer.prerolls() == old(self).writer.prerolls()
                    &&& final(self).queue@ == old(self).queue@
                    &&& final(self).cur == old(self).cur
                    &&& final(self).paused == old(self).paused
                },
            },
    {
        match cmd {
            Cmd::Play(p) => {
                self.restart(Some(Source::whole(p)));
                Reaction::Restart
            },
            Cmd::PlayRange { path, start, end } => {
                self.restart(Some(Source { path, range: Some((start, end)), sacd_track: None }));
                Reaction::Restart
            },
            Cmd::PlaySacd { path, track } => {
                self.restart(Some(Source::sacd(path, track)));
                Reaction::Restart
            },
            Cmd::Stop => {
                self.restart(None);
                Reaction::Restart
            },
            Cmd::Enqueue(p) => {
                self.queue.push_back(Source::whole(p));
                Reaction::Nothing
            },
            Cmd::EnqueueSacd { path, track } => {
                self.queue.push_back(Source::sacd(path, track));
                Reaction::Nothing
            },
            Cmd::Pause => {
                self.paused = true;
                Reaction::Pause
            },
            Cmd::Resume => {
                self.paused = false;
                Reaction::Resume
            },
            Cmd::Seek(d) => match self.cur {
                None => Reaction::Nothing,
                Some(t) => {
                    self.writer.close();
                    match t.kind {
                        TrackKind::Pcm => {
                            let target = match t.range {
                                Some((start, end)) => {
                                    let off = d.min(end.saturating_sub(start));
                                    Span { nanos: start.nanos + off.nanos }
                                },
                                None => d,
                            };
                            Reaction::SeekPcm(target)
                        },
                        TrackKind::Dsd { dsd_rate } => {
                            let rate: u32 = if dsd_rate < 16 {
                                1
                            } else {
                                dsd_rate / 16
                            };
                            Reaction::SeekDsd(d.frames_at(rate))
                        },
                    }
                },
            },
            Cmd::Quit => {
                self.writer.close();
                Reaction::Quit
            },
        }
    }

    fn restart(&mut self, src: Option<Source>)
        requires
            old(self).wf(),
        ensures
            final(self).restarted(
                *old(self),
                match src {
                    Some(s) => seq![s],
                    None => Seq::empty(),
                },
            ),
    {
        self.queue.clear();
        let ghost given = src;
        if let Some(s) = src {
            self.queue.push_back(s);
        }
        assert(self.queue@ =~= match given {
            Some(s) => seq![s],
            None => Seq::<Source>::empty(),
        });
        self.cur = None;
        self.writer.close();
        self.paused = false;
    }

    /// Takes the frame that a PCM seek landed on, if it did. Returns the frames left to
    /// play where the track is a part of a file. The engine plays on, and the interrupt
    /// flag is to be cleared.
    pub fn on_pcm_seek(&mut self, landed: Option<u64>) -> (limit: Option<u64>)
        requires
            old(self).wf(),
            old(self).cur matches Some(t) && (t.range matches Some((s, e)) ==> s.millis()
                <= u64::MAX && e.millis() <= u64::MAX && s.countable(t.spec.rate as nat)
                && e.countable(t.spec.rate as nat)),
        ensures
            final(self).wf(),
            final(self).queue@ == old(self).queue@,
            final(self).cur == old(self).cur,
            final(self).writer.segment() == old(self).writer.segment(),
            final(self).writer.prerolls() == old(self).writer.prerolls(),
            final(self).writer.written() == old(self).writer.written(),
            final(self).writer.sending() == old(self).writer.sending(),
            final(self).writer.held() == old(self).writer.held(),
            !final(self).paused,
            match landed {
                None => limit is None && final(self).writer.base() == old(self).writer.base(),
                Some(f) => match old(self).cur->0.range {
                    None => limit is None && final(self).writer.base() == f,
                    Some((s, e)) => {
                        let rate = old(self).cur->0.spec.rate as nat;
                        &&& limit == Some(
                            if e.frames(rate) >= f {
                                (e.frames(rate) - f) as u64
                            } else {
                                0
                            },
                        )
                        &&& final(self).writer.base() == (if f >= s.frames(rate) {
                            f - s.frames(rate)
                        } else {
                            0
                        })
                    },
                },
            },
    {
        self.paused = false;
        let t = match self.cur {
            Some(t) => t,
            None => return None,
        };
        match landed {
            None => None,
            Some(f) => match t.range {
                None => {
                    self.writer.set_next_pos_base(f);
                    None
                },
                Some((s, e)) => {
                    let start: u64 = s.frames_at(t.spec.rate);
                    let end: u64 = e.frames_at(t.spec.rate);
                    self.writer.set_next_pos_base(f.saturating_sub(start));
                    Some(end.saturating_sub(f))
                },
            },
        }
    }

    /// Takes the frame that a DSD seek landed on, if it did. The engine plays on, and the
    /// interrupt flag is to be cleared.
    pub fn on_dsd_seek(&mut self, landed: Option<u64>)
        requires
            old(self).wf(),
        ensures
            final(self).wf(),
            final(self).queue@ == old(self).queue@,
            final(self).cur == old(self).cur,
            final(self).writer.segment() == old(self).writer.segment(),
            final(self).writer.prerolls() == old(self).writer.prerolls(),
            final(self).writer.written() == old(self).writer.written(),
            final(self).writer.sending() == old(self).writer.sending(),
            final(self).writer.held() == old(self).writer.held(),
            !final(self).paused,
            final(self).writer.base() == (match landed {
                Some(f) => f,
                None => old(self).writer.base(),
            }),
    {
        self.paused = false;
        if let Some(f) = landed {
            self.writer.set_next_pos_base(f);
        }
    }

    /// The command channel is gone. A thread that was waiting leaves at once; a busy one
    /// flushes first.
    pub fn on_disconnect(&mut self, waiting: bool) -> (r: Reaction)
        requires
            old(self).wf(),
        ensures
            r == (if waiting {
                Reaction::Leave
            } else {
                Reaction::Quit
            }),
            final(self).wf(),
            !waiting ==> {
                &&& final(self).writer.segment() is None
                &&& final(self).writer.base() == old(self).writer.base()
                &&& final(self).writer.prerolls() == old(self).writer.prerolls()
                &&& final(self).writer.held() == old(self).writer.held_when_closed()
                &&& final(self).queue == old(self).queue
                &&& final(self).cur == old(self).cur
                &&& final(self).paused == old(self).paused
            },
            waiting ==> *final(self) == *old(self),
    {
        if waiting {
            Reaction::Leave
        } else {
            self.writer.close();
            Reaction::Quit
        }
    }

    /// Decides what to do next. The queue is played in order; when it runs dry an open
    /// segment is finished.
    pub fn step(&mut self) -> (s: Step)
        requires
            old(self).wf(),
        ensures
            final(self).wf(),
            final(self).cur == old(self).cur,
            final(self).paused == old(self).paused,
            final(self).writer.base() == old(self).writer.base(),
            final(self).writer.prerolls() == old(self).writer.prerolls(),
            if old(self).paused {
                s is AwaitPaused && *final(self) == *old(self)
            } else {
                match old(self).cur {
                    Some(t) => s == Step::Produce(t.spec) && *final(self) == *old(self),
                    None => if old(self).queue@.len() > 0 {
                        &&& s == Step::Build(old(self).queue@[0])
                        &&& final(self).queue@ == old(self).queue@.skip(1)
                        &&& final(self).writer == old(self).writer
                    } else {
                        &&& final(self).queue@ == old(self).queue@
                        &&& final(self).writer.segment() is None
                        &&& if old(self).writer.segment() is Some {
                            s is FinishAndAwait && final(self).writer.held() == Some(
                                old(self).writer.written(),
                            )
                        } else {
                            s is Await && *final(self) == *old(self)
                        }
                    },
                }
            },
    {
        if self.paused {
            return Step::AwaitPaused;
        }
        if let Some(t) = self.cur {
            return Step::Produce(t.spec);
        }
        if self.queue.len() > 0 {
            let ghost before = self.queue@;
            match self.queue.pop_front() {
                Some(src) => {
                    assert(self.queue@ =~= before.skip(1));
                    return Step::Build(src);
                },
                None => {
                    return Step::Await;
                },
            }
        }
        if self.writer.has_segment() {
            self.writer.close();
            return Step::FinishAndAwait;
        }
        Step::Await
    }

    /// Takes the outcome of opening a source: its track, or nothing if that failed.
    pub fn on_built(&mut self, track: Option<Track>)
        requires
            old(self).wf(),
        ensures
            final(self).wf(),
            final(self).cur == track,
            final(self).queue == old(self).queue,
            final(self).writer == old(self).writer,
            final(self).paused == old(self).paused,
    {
        self.cur = track;
    }

    /// Takes the outcome of a block: the track goes on only if all of it was pushed.
    pub fn on_block(&mut self, pushed_all: bool)
        requires
            old(self).wf(),
        ensures
            final(self).wf(),
            final(self).cur == (if pushed_all {
                old(self).cur
            } else {
                None
            }),
            final(self).queue == old(self).queue,
            final(self).writer == old(self).writer,
            final(self).paused == old(self).paused,
    {
        if !pushed_all {
            self.cur = None;
        }
    }
}

/// How a PCM source is to be played.
#[derive(Clone, Copy, Debug, PartialEq, Eq, Structural)]
pub struct PcmPlan {
    /// Seek here first.
    pub seek: Option<Span>,
    /// Stop after this many frames.
    pub limit: Option<u64>,
    pub spec: StreamSpec,
}

/// Plans a PCM source, given the decoder's stream and the device's formats. A part of a
/// file starts with a seek; it ends by count if its end lies behind its start.
pub fn plan_pcm(range: Option<(Span, Span)>, spec: StreamSpec, formats: &DeviceFormats) -> (p:
    PcmPlan)
    requires
        range matches Some((s, e)) ==> e.nanos > s.nanos ==> {
            let d = Span { nanos: (e.nanos - s.nanos) as u128 };
            d.millis() <= u64::MAX && d.countable(spec.rate as nat)
        },
    ensures
        wired(spec, *formats, p.spec),
        match range {
            None => p.seek is None && p.limit is None,
            Some((s, e)) => p.seek == Some(s) && p.limit == (if e.nanos > s.nanos {
                Some((Span { nanos: (e.nanos - s.nanos) as u128 }).frames(spec.rate as nat) as u64)
            } else {
                None
            }),
        },
{
    let out = wire_spec(spec, formats);
    match range {
        None => PcmPlan { seek: None, limit: None, spec: out },
        Some((s, e)) => {
            let limit: Option<u64> = if e.nanos > s.nanos {
                let d = Span { nanos: e.nanos - s.nanos };
                Some(d.frames_at(spec.rate))
            } else {
                None
            };
            PcmPlan { seek: Some(s), limit, spec: out }
        },
    }
}

/// Plans a DSD source: DoP in the narrowest format of at least 24 bits that the device
/// accepts.
pub fn plan_dsd(dspec: DsdSpec, formats: &DeviceFormats) -> (r: Result<StreamSpec, Error>)
    ensures
        !formats.s24_3 && !formats.s32 <==> r is Err,
        r matches Err(e) ==> (e matches Error::Unsupported(s) && s@
            == "device has no 24/32-bit PCM format to carry DoP"@),
        r matches Ok(s) ==> s == (StreamSpec {
            rate: dspec.dsd_rate / 16,
            channels: dspec.channels,
            source_bits: DOP_BITS,
            fmt: if formats.s24_3 {
                AlsaFmt::S24_3
            } else {
                AlsaFmt::S32
            },
            is_dop: true,
        }),
{
    match formats.choose_format(24) {
        Some(fmt) => {
            proof {
                if formats.s24_3 {
                    assert(formats.carries(24, AlsaFmt::S24_3));
                    assert(fmt.width() <= AlsaFmt::S24_3.width());
                }
            }
            Ok(dspec.dop_spec(fmt))
        },
        None => {
            assert(!formats.carries(24, AlsaFmt::S24_3));
            assert(!formats.carries(24, AlsaFmt::S32));
            Err(
                Error::Unsupported(
                    String::from_str("device has no 24/32-bit PCM format to carry DoP"),
                ),
            )
        },
    }
}

/// The segments that are opened for a run of streams, given the open one.
pub open spec fn segments(open: Option<StreamSpec>, streams: Seq<StreamSpec>) -> nat
    decreases streams.len(),
{
    if streams.len() == 0 {
        0
    } else {
        let s = streams[0];
        if open matches Some(c) && c.wire_eq(s) {
            segments(open, streams.skip(1))
        } else {
            1 + segments(Some(s), streams.skip(1))
        }
    }
}

/// Playback is gapless within a wire format: however many streams of one wire format
/// follow each other, they share a single segment, and an open one is kept.
pub proof fn law_same_wire_is_gapless(
    open: Option<StreamSpec>,
    streams: Seq<StreamSpec>,
    wire: StreamSpec,
)
    requires
        forall|i: int| 0 <= i < streams.len() ==> wire.wire_eq(#[trigger] streams[i]),
    ensures
        segments(open, streams) == (if streams.len() == 0 || (open matches Some(c) && c.wire_eq(
            wire,
        )) {
            0nat
        } else {
            1
        }),
    decreases streams.len(),
{
    if streams.len() > 0 {
        let s = streams[0];
        let rest = streams.skip(1);
        assert(wire.wire_eq(s));
        assert forall|i: int| 0 <= i < rest.len() implies wire.wire_eq(#[trigger] rest[i]) by {
            assert(rest[i] == streams[i + 1]);
        }
        if open matches Some(c) && c.wire_eq(s) {
            law_same_wire_is_gapless(open, rest, wire);
        } else {
            law_same_wire_is_gapless(Some(s), rest, wire);
        }
    }
}

/// A file that was cut into parts plays as the whole: the parts of one wire format, each
/// packed for itself and written one behind the other, put the same bytes on the wire as the
/// uncut file. Not a sample is added or lost where they meet.
pub proof fn law_parts_play_as_the_whole(fmt: AlsaFmt, parts: Seq<Seq<i32>>)
    ensures
        parts.map_values(|p: Seq<i32>| wire_bytes(fmt, p)).flatten() == wire_bytes(
            fmt,
            parts.flatten(),
        ),
    decreases parts.len(),
{
    let packed = parts.map_values(|p: Seq<i32>| wire_bytes(fmt, p));
    if parts.len() == 0 {
        assert(wire_bytes(fmt, Seq::empty()) =~= Seq::empty());
    } else {
        let rest = parts.drop_first();
        law_parts_play_as_the_whole(fmt, rest);
        assert(packed.drop_first() =~= rest.map_values(|p: Seq<i32>| wire_bytes(fmt, p)));
        law_packing_goes_by_sample(fmt, parts.first(), rest.flatten());
    }
}

/// A change of wire format always opens a new segment, so the device is never fed a format
/// it was not opened for.
pub proof fn law_wire_change_opens(open: StreamSpec, next: StreamSpec)
    requires
        !open.wire_eq(next),
    ensures
        segments(Some(open), seq![next]) == 1,
{
    reveal_with_fuel(segments, 2);
}

/// A seek within a part of a file never leaves the part.
pub proof fn law_seek_stays_in_range(start: Span, end: Span, d: Span)
    requires
        start.nanos <= end.nanos,
    ensures
        start.nanos <= seek_target(Some((start, end)), d) <= end.nanos,
{
}

/// A seek to `d` leads to `d`: in a whole file to that time in the file; in a part of a file
/// to that time behind the part's start, or to the part's end if the part is shorter.
pub proof fn law_seek_leads_where_asked(e: &mut DecodeEngine, d: Span, t: Track, r: Reaction)
    requires
        call_ensures(DecodeEngine::apply_cmd, (e, Cmd::Seek(d)), r),
        old(e).wf(),
        old(e).cur == Some(t),
        t.kind is Pcm,
    ensures
        t.range is None ==> r == Reaction::SeekPcm(d),
        t.range matches Some((start, end)) ==> {
            &&& r matches Reaction::SeekPcm(at)
            &&& start.nanos + d.nanos <= end.nanos ==> at.nanos == start.nanos + d.nanos
            &&& start.nanos <= end.nanos < start.nanos + d.nanos ==> at.nanos == end.nanos
            &&& end.nanos < start.nanos ==> at.nanos == start.nanos
        },
{
}

/// A seek in a DSD track leads to the DoP frame at that time, sixteen DSD bits of a channel
/// to the frame, counted in whole milliseconds.
pub proof fn law_dsd_seek_leads_where_asked(
    e: &mut DecodeEngine,
    d: Span,
    t: Track,
    rate: u32,
    r: Reaction,
)
    requires
        call_ensures(DecodeEngine::apply_cmd, (e, Cmd::Seek(d)), r),
        old(e).wf(),
        old(e).can_apply(Cmd::Seek(d)),
        old(e).cur == Some(t),
        t.kind == (TrackKind::Dsd { dsd_rate: rate }),
    ensures
        rate >= 16 ==> (r matches Reaction::SeekDsd(f) && f == d.nanos as nat / 1_000_000 * (
        rate as nat / 16) / 1000),
        rate < 16 ==> (r matches Reaction::SeekDsd(f) && f == d.nanos as nat / 1_000_000 / 1000),
{
}

/// A seek ends the open segment and touches nothing else: the track, the queue, the pause and
/// the position base stay as they are. Without a track it does nothing at all.
pub proof fn law_seek_keeps_the_rest(e: &mut DecodeEngine, d: Span, r: Reaction)
    requires
        call_ensures(DecodeEngine::apply_cmd, (e, Cmd::Seek(d)), r),
        old(e).wf(),
    ensures
        final(e).queue@ == old(e).queue@,
        final(e).cur == old(e).cur,
        final(e).paused == old(e).paused,
        final(e).writer.base() == old(e).writer.base(),
        old(e).cur is Some ==> final(e).writer.segment() is None,
        old(e).cur is None ==> {
            &&& r == Reaction::Nothing
            &&& final(e).writer.segment() == old(e).writer.segment()
            &&& final(e).writer.written() == old(e).writer.written()
        },
        old(e).cur is Some && old(e).writer.segment() is Some ==> final(e).writer.held() == Some(
            old(e).writer.written(),
        ),
        old(e).cur is None || old(e).writer.segment() is None ==> final(e).writer.held() == old(
            e,
        ).writer.held(),
        final(e).writer.prerolls() == old(e).writer.prerolls(),
{
}

/// A command to play replaces everything: its source alone is queued, no track and no segment
/// is left, and a pause is over. Stopping does the same and queues nothing.
pub proof fn law_play_replaces_everything(e: &mut DecodeEngine, cmd: Cmd, r: Reaction)
    requires
        call_ensures(DecodeEngine::apply_cmd, (e, cmd), r),
        old(e).wf(),
        cmd is Play || cmd is PlayRange || cmd is PlaySacd || cmd is Stop,
    ensures
        r == Reaction::Restart,
        final(e).cur is None,
        final(e).writer.segment() is None,
        !final(e).paused,
        cmd is Stop ==> final(e).queue@.len() == 0,
        cmd matches Cmd::Play(p) ==> {
            &&& final(e).queue@.len() == 1
            &&& final(e).queue@[0].path == p
            &&& final(e).queue@[0].range is None
            &&& final(e).queue@[0].sacd_track is None
        },
        cmd matches Cmd::PlayRange { path, start, end } ==> {
            &&& final(e).queue@.len() == 1
            &&& final(e).queue@[0].path == path
            &&& final(e).queue@[0].range == Some((start, end))
            &&& final(e).queue@[0].sacd_track is None
        },
        cmd matches Cmd::PlaySacd { path, track } ==> {
            &&& final(e).queue@.len() == 1
            &&& final(e).queue@[0].path == path
            &&& final(e).queue@[0].range is None
            &&& final(e).queue@[0].sacd_track == Some(track)
        },
        old(e).writer.segment() is Some ==> final(e).writer.held() == Some(old(e).writer.written()),
        old(e).writer.segment() is None ==> final(e).writer.held() == old(e).writer.held(),
        final(e).writer.base() == old(e).writer.base(),
        final(e).writer.prerolls() == old(e).writer.prerolls(),
{
}

/// A source that is queued goes behind all others and disturbs nothing that plays.
pub proof fn law_enqueue_goes_last(e: &mut DecodeEngine, cmd: Cmd, r: Reaction, k: int)
    requires
        call_ensures(DecodeEngine::apply_cmd, (e, cmd), r),
        old(e).wf(),
        cmd is Enqueue || cmd is EnqueueSacd,
    ensures
        r == Reaction::Nothing,
        final(e).queue@.len() == old(e).queue@.len() + 1,
        0 <= k < old(e).queue@.len() ==> final(e).queue@[k] == old(e).queue@[k],
        final(e).queue@.last().range is None,
        cmd matches Cmd::Enqueue(p) ==> final(e).queue@.last().path == p
            && final(e).queue@.last().sacd_track is None,
        cmd matches Cmd::EnqueueSacd { path, track } ==> final(e).queue@.last().path == path
            && final(e).queue@.last().sacd_track == Some(track),
        final(e).cur == old(e).cur,
        final(e).paused == old(e).paused,
        final(e).writer.segment() == old(e).writer.segment(),
        final(e).writer.written() == old(e).writer.written(),
        final(e).writer.base() == old(e).writer.base(),
        final(e).writer.held() == old(e).writer.held(),
        final(e).writer.prerolls() == old(e).writer.prerolls(),
        final(e).writer.sending() == old(e).writer.sending(),
{
}

/// Pausing and resuming change the pause and nothing else, and each tells the audio thread.
pub proof fn law_pause_only_pauses(e: &mut DecodeEngine, cmd: Cmd, r: Reaction)
    requires
        call_ensures(DecodeEngine::apply_cmd, (e, cmd), r),
        old(e).wf(),
        cmd is Pause || cmd is Resume,
    ensures
        cmd is Pause ==> r == Reaction::Pause && final(e).paused,
        cmd is Resume ==> r == Reaction::Resume && !final(e).paused,
        final(e).queue@ == old(e).queue@,
        final(e).cur == old(e).cur,
        final(e).writer.segment() == old(e).writer.segment(),
        final(e).writer.written() == old(e).writer.written(),
        final(e).writer.base() == old(e).writer.base(),
        final(e).writer.held() == old(e).writer.held(),
        final(e).writer.prerolls() == old(e).writer.prerolls(),
        final(e).writer.sending() == old(e).writer.sending(),
{
}

/// Quitting, by command or because the sender is gone, closes the open segment. A thread that
/// was waiting leaves as it is.
pub proof fn law_quit_closes_the_segment(
    e: &mut DecodeEngine,
    r: Reaction,
    g: &mut DecodeEngine,
    waiting: bool,
    s: Reaction,
)
    requires
        call_ensures(DecodeEngine::apply_cmd, (e, Cmd::Quit), r),
        call_ensures(DecodeEngine::on_disconnect, (g, waiting), s),
        old(e).wf(),
        old(g).wf(),
    ensures
        r == Reaction::Quit,
        final(e).writer.segment() is None,
        final(e).queue@ == old(e).queue@,
        final(e).cur == old(e).cur,
        waiting ==> s == Reaction::Leave && *final(g) == *old(g),
        !waiting ==> s == Reaction::Quit && final(g).writer.segment() is None,
        old(e).writer.segment() is Some ==> final(e).writer.held() == Some(old(e).writer.written()),
        old(e).writer.segment() is None ==> final(e).writer.held() == old(e).writer.held(),
        final(e).writer.base() == old(e).writer.base(),
        final(e).writer.prerolls() == old(e).writer.prerolls(),
        final(e).paused == old(e).paused,
        !waiting ==> {
            &&& final(g).queue == old(g).queue
            &&& final(g).cur == old(g).cur
            &&& final(g).paused == old(g).paused
            &&& final(g).writer.base() == old(g).writer.base()
            &&& final(g).writer.prerolls() == old(g).writer.prerolls()
            &&& old(g).writer.segment() is Some ==> final(g).writer.held() == Some(
                old(g).writer.written(),
            )
        },
{
}

/// The queue is played from its front: a free engine builds the first source and keeps the
/// others in their order. A pause holds everything; a track that is open is produced first;
/// with nothing left an open segment is finished, once.
pub proof fn law_step_plays_from_the_front(e: &mut DecodeEngine, s: Step, k: int)
    requires
        call_ensures(DecodeEngine::step, (e,), s),
        old(e).wf(),
    ensures
        old(e).paused ==> s is AwaitPaused && *final(e) == *old(e),
        !old(e).paused && old(e).cur is Some ==> s == Step::Produce(old(e).cur->0.spec)
            && *final(e) == *old(e),
        !old(e).paused && old(e).cur is None && old(e).queue@.len() > 0 ==> {
            &&& s == Step::Build(old(e).queue@[0])
            &&& final(e).queue@.len() == old(e).queue@.len() - 1
            &&& 0 <= k < final(e).queue@.len() ==> final(e).queue@[k] == old(e).queue@[k + 1]
            &&& final(e).writer == old(e).writer
        },
        !old(e).paused && old(e).cur is None && old(e).queue@.len() == 0 ==> {
            &&& final(e).queue@.len() == 0
            &&& final(e).writer.segment() is None
            &&& s is FinishAndAwait <==> old(e).writer.segment() is Some
            &&& s is Await <==> old(e).writer.segment() is None
        },
        final(e).cur == old(e).cur,
        final(e).paused == old(e).paused,
        s is FinishAndAwait ==> final(e).writer.held() == Some(old(e).writer.written()),
        s is Await ==> *final(e) == *old(e),
        final(e).writer.base() == old(e).writer.base(),
        final(e).writer.prerolls() == old(e).writer.prerolls(),
{
}

/// What a command queues is what is built next when the engine is free: a source that is
/// played is built by the next step.
pub proof fn law_played_source_is_built(
    e: &mut DecodeEngine,
    path: String,
    r: Reaction,
    g: &mut DecodeEngine,
    s: Step,
)
    requires
        call_ensures(DecodeEngine::apply_cmd, (e, Cmd::Play(path)), r),
        call_ensures(DecodeEngine::step, (g,), s),
        *old(g) == *final(e),
        old(e).wf(),
    ensures
        s matches Step::Build(src) && src.path == path && src.range is None
            && src.sacd_track is None,
        final(g).queue@.len() == 0,
{
}

/// After a seek that landed the position counts from there: in a whole file from the frame
/// itself, in a part of a file from the frame less the part's start. What is then left to
/// play of a part reaches to its end.
pub proof fn law_seek_sets_the_position(
    e: &mut DecodeEngine,
    t: Track,
    f: u64,
    limit: Option<u64>,
)
    requires
        call_ensures(DecodeEngine::on_pcm_seek, (e, Some(f)), limit),
        old(e).wf(),
        old(e).cur == Some(t),
        t.range matches Some((s, n)) ==> s.millis() <= u64::MAX && n.millis() <= u64::MAX
            && s.countable(t.spec.rate as nat) && n.countable(t.spec.rate as nat),
    ensures
        t.range is None ==> limit is None && final(e).writer.base() == f,
        t.range matches Some((start, end)) ==> {
            let first = start.nanos as nat / 1_000_000 * t.spec.rate as nat / 1000;
            let last = end.nanos as nat / 1_000_000 * t.spec.rate as nat / 1000;
            &&& f >= first ==> final(e).writer.base() == f - first
            &&& f < first ==> final(e).writer.base() == 0
            &&& f <= last ==> limit == Some((last - f) as u64) && last - f <= u64::MAX
            &&& f > last ==> limit == Some(0u64)
        },
        !final(e).paused,
        final(e).cur == old(e).cur,
        final(e).queue@ == old(e).queue@,
        final(e).writer.segment() == old(e).writer.segment(),
        final(e).writer.written() == old(e).writer.written(),
        final(e).writer.held() == old(e).writer.held(),
        final(e).writer.prerolls() == old(e).writer.prerolls(),
{
}

/// A seek that did not land leaves the position base; a DSD seek that landed sets it.
pub proof fn law_failed_seek_keeps_the_position(
    e: &mut DecodeEngine,
    limit: Option<u64>,
    g: &mut DecodeEngine,
    landed: Option<u64>,
    u: (),
)
    requires
        call_ensures(DecodeEngine::on_pcm_seek, (e, None), limit),
        call_ensures(DecodeEngine::on_dsd_seek, (g, landed), u),
        old(e).wf(),
        old(e).cur is Some,
        old(g).wf(),
    ensures
        limit is None,
        final(e).writer.base() == old(e).writer.base(),
        !final(e).paused,
        landed matches Some(f) ==> final(g).writer.base() == f,
        landed is None ==> final(g).writer.base() == old(g).writer.base(),
        !final(g).paused,
        final(g).cur == old(g).cur,
        final(g).queue@ == old(g).queue@,
        final(g).writer.segment() == old(g).writer.segment(),
        final(e).cur == old(e).cur,
        final(e).queue@ == old(e).queue@,
        final(e).writer.segment() == old(e).writer.segment(),
        final(e).writer.written() == old(e).writer.written(),
        final(g).writer.written() == old(g).writer.written(),
        final(g).writer.prerolls() == old(g).writer.prerolls(),
{
}

/// A source that could be opened becomes the track, and it stays the track until a block of it
/// is not pushed whole.
pub proof fn law_track_lasts_while_pushed(
    e: &mut DecodeEngine,
    track: Option<Track>,
    u: (),
    g: &mut DecodeEngine,
    all: bool,
    v: (),
)
    requires
        call_ensures(DecodeEngine::on_built, (e, track), u),
        call_ensures(DecodeEngine::on_block, (g, all), v),
        old(e).wf(),
        old(g).wf(),
    ensures
        final(e).cur == track,
        final(e).queue == old(e).queue,
        final(e).writer == old(e).writer,
        final(e).paused == old(e).paused,
        all ==> final(g).cur == old(g).cur,
        !all ==> final(g).cur is None,
        final(g).queue == old(g).queue,
        final(g).writer == old(g).writer,
        final(g).paused == old(g).paused,
{
}

/// A new engine is idle: nothing queued, no track, no segment, not paused, and it puts silence
/// in front of every segment.
pub proof fn law_new_engine_is_idle(e: DecodeEngine)
    requires
        call_ensures(DecodeEngine::new, (), e),
    ensures
        e.queue@.len() == 0,
        e.cur is None,
        !e.paused,
        e.writer.segment() is None,
        e.writer.base() == 0,
        e.writer.prerolls(),
        e.writer.written().len() == 0,
        e.writer.held() is None,
{
}

/// A source names what it was made from: a whole file has neither a part nor a disc track, a
/// disc track is that of its number.
pub proof fn law_sources_name_what_they_play(p: String, n: usize, a: Source, b: Source)
    requires
        call_ensures(Source::whole, (p,), a),
        call_ensures(Source::sacd, (p, n), b),
    ensures
        a.path == p && a.range is None && a.sacd_track is None,
        b.path == p && b.range is None && b.sacd_track == Some(n),
{
}

/// A whole file is planned without a seek and without a limit. A part of a file starts with a
/// seek to its start; if it has a length, so many frames of it are played.
pub proof fn law_part_is_planned_exactly(
    range: Option<(Span, Span)>,
    spec: StreamSpec,
    formats: DeviceFormats,
    p: PcmPlan,
)
    requires
        call_ensures(plan_pcm, (range, spec, &formats), p),
        range matches Some((s, e)) ==> e.nanos > s.nanos ==> {
            let d = Span { nanos: (e.nanos - s.nanos) as u128 };
            d.millis() <= u64::MAX && d.countable(spec.rate as nat)
        },
    ensures
        range is None ==> p.seek is None && p.limit is None,
        range matches Some((start, end)) ==> {
            &&& p.seek == Some(start)
            &&& end.nanos <= start.nanos ==> p.limit is None
            &&& end.nanos > start.nanos ==> (p.limit matches Some(n) && n == (end.nanos
                - start.nanos) / 1_000_000 * spec.rate / 1000)
        },
        p.spec.rate == spec.rate,
        p.spec.channels == spec.channels,
        p.spec.source_bits == spec.source_bits,
        p.spec.is_dop == spec.is_dop,
        p.spec.fmt == (if spec.source_bits <= 16 && formats.s16 {
            AlsaFmt::S16
        } else if spec.source_bits <= 24 && formats.s24_3 {
            AlsaFmt::S24_3
        } else if formats.s32 {
            AlsaFmt::S32
        } else {
            spec.fmt
        }),
{
    let bits = spec.source_bits as nat;
    assert(formats.carries(bits, AlsaFmt::S16) <==> bits <= 16 && formats.s16);
    assert(formats.carries(bits, AlsaFmt::S24_3) <==> bits <= 24 && formats.s24_3);
    assert(formats.carries(bits, AlsaFmt::S32) <==> formats.s32);
    assert(AlsaFmt::S16.width() == 16 && AlsaFmt::S24_3.width() == 24);
    if let Some((s, e)) = range {
        if e.nanos > s.nanos {
            let d = Span { nanos: (e.nanos - s.nanos) as u128 };
            assert(d.nanos == e.nanos - s.nanos);
            assert(d.frames(spec.rate as nat) <= d.millis() * spec.rate as nat);
        }
    }
}

/// DSD goes out as DoP: a sixteenth of its rate, its channels, in 24 bits, or in 32 if the
/// device has no 24. A device with neither cannot play it.
pub proof fn law_dsd_needs_room_for_markers(
    dspec: DsdSpec,
    formats: DeviceFormats,
    r: Result<StreamSpec, Error>,
)
    requires
        call_ensures(plan_dsd, (dspec, &formats), r),
    ensures
        r is Ok <==> formats.s24_3 || formats.s32,
        r matches Ok(s) ==> {
            &&& s.is_dop
            &&& s.channels == dspec.channels
            &&& s.rate * 16 <= dspec.dsd_rate < (s.rate + 1) * 16
            &&& s.source_bits == 24
            &&& formats.s24_3 ==> s.fmt == AlsaFmt::S24_3
            &&& !formats.s24_3 ==> s.fmt == AlsaFmt::S32
        },
{
}

/// A stream goes on in the open segment exactly if rate, channels and format are the same; a
/// new segment starts empty, counts from the base that was set, and has room for half a second.
pub proof fn law_same_format_keeps_the_segment(
    w: SegmentWriter,
    spec: StreamSpec,
    r: Option<Opening>,
)
    requires
        call_ensures(SegmentWriter::producer_for, (&w, spec), r),
        w.wf(),
        ringable(spec),
    ensures
        r is None <==> (w.segment() matches Some(c) && c.rate == spec.rate && c.channels
            == spec.channels && c.fmt == spec.fmt),
        r matches Some(o) ==> {
            &&& o.pos_base == w.base()
            &&& pushed(o.producer).len() == 0
            &&& popped(o.consumer).len() == 0
            &&& coming(o.consumer) == sent(o.producer)
            &&& capacity(o.producer) == (if spec.rate as nat * 500 / 1000 >= 2048 {
                spec.rate as nat * 500 / 1000
            } else {
                2048
            }) * spec.frame_bytes()
        },
{
}

/// A segment that was opened starts with its preroll and nothing else. DoP always has one;
/// PCM where it is asked for: zeros, for the time of a preroll, counted in whole
/// milliseconds of the rate.
pub proof fn law_segment_starts_with_its_preroll(
    w: &mut SegmentWriter,
    spec: StreamSpec,
    producer: rtrb::Producer<u8>,
    u: (),
    i: int,
)
    requires
        call_ensures(SegmentWriter::adopt, (w, spec, producer), u),
        old(w).wf(),
        ringable(spec),
        pushed(producer) == Seq::<u8>::empty(),
        capacity(producer) == ring_frames(spec.rate as nat) * spec.frame_bytes(),
    ensures
        final(w).segment() == Some(spec),
        final(w).base() == 0,
        final(w).prerolls() == old(w).prerolls(),
        final(w).sending() == sent(producer),
        final(w).written().is_prefix_of(sent(producer)),
        !spec.is_dop && !old(w).prerolls() ==> final(w).written().len() == 0,
        !spec.is_dop && old(w).prerolls() ==> {
            &&& final(w).written().len() == spec.rate as nat / 1000 * 48 * (
            spec.fmt.sample_bytes() * spec.channels as nat)
            &&& 0 <= i < final(w).written().len() ==> final(w).written()[i] == 0
        },
        spec.is_dop ==> final(w).written() == silence(spec, spec.rate as nat / 1000 * 48),
{
}

/// Bytes go into the open segment in order and are never dropped: what is reported as taken
/// stands behind what was written before, the rest is left to the caller.
pub proof fn law_push_drops_nothing(
    w: &mut SegmentWriter,
    bytes: &[u8],
    at: usize,
    fb: usize,
    r: (usize, PushState),
)
    requires
        call_ensures(SegmentWriter::push, (w, bytes, at, fb), r),
        old(w).wf(),
        old(w).segment() is Some,
        at <= bytes@.len(),
        fb > 0,
    ensures
        at <= r.0 <= bytes@.len(),
        final(w).written() + bytes@.skip(r.0 as int) == old(w).written() + bytes@.skip(at as int),
        r.1 == PushState::Done <==> r.0 == bytes@.len(),
        r.0 < bytes@.len() ==> (r.0 - at) % fb as int == 0,
        r.1 == PushState::Full ==> final(w).space() < fb,
        final(w).segment() == old(w).segment(),
        final(w).base() == old(w).base(),
{
    assert(bytes@.skip(at as int) =~= bytes@.subrange(at as int, r.0 as int) + bytes@.skip(
        r.0 as int,
    ));
    let n = final(w).space() as int;
    if r.1 == PushState::Full && n >= fb {
        vstd::arithmetic::div_mod::lemma_fundamental_div_mod(n, fb as int);
        let q = n / fb as int;
        assert(q >= 1) by (nonlinear_arith)
            requires
                n >= fb,
                fb > 0,
                n == fb * q + n % fb as int,
                (n % fb as int) < fb,
        ;
        assert(q * fb >= fb) by (nonlinear_arith)
            requires
                q >= 1,
                fb > 0,
        ;
    }
}

/// Closing a segment keeps hold of its ring until it is released, so that a message about it
/// can go ahead; the base for the next segment and the preroll stay.
pub proof fn law_closed_segment_is_held_until_released(
    w: &mut SegmentWriter,
    u: (),
    x: &mut SegmentWriter,
    v: (),
)
    requires
        call_ensures(SegmentWriter::close, (w,), u),
        call_ensures(SegmentWriter::release, (x,), v),
        old(w).wf(),
        *old(x) == *final(w),
    ensures
        final(w).segment() is None,
        final(w).written().len() == 0,
        old(w).segment() is Some ==> final(w).held() == Some(old(w).written()),
        old(w).segment() is None ==> final(w).held() == old(w).held(),
        final(w).base() == old(w).base(),
        final(w).prerolls() == old(w).prerolls(),
        final(x).held() is None,
        final(x).segment() is None,
        final(x).base() == old(w).base(),
        final(x).prerolls() == old(w).prerolls(),
{
}

/// Setting the base and asking for prerolls change just that.
pub proof fn law_writer_settings(
    w: &mut SegmentWriter,
    base: u64,
    u: (),
    x: &mut SegmentWriter,
    v: (),
    b: bool,
)
    requires
        call_ensures(SegmentWriter::set_next_pos_base, (w, base), u),
        call_ensures(SegmentWriter::enable_pcm_preroll, (x,), v),
        call_ensures(SegmentWriter::has_segment, (&*old(w),), b),
        old(w).wf(),
        old(x).wf(),
    ensures
        final(w).base() == base,
        final(w).segment() == old(w).segment(),
        final(w).written() == old(w).written(),
        final(w).prerolls() == old(w).prerolls(),
        final(x).prerolls(),
        final(x).base() == old(x).base(),
        final(x).segment() == old(x).segment(),
        final(x).written() == old(x).written(),
        b <==> old(w).segment() is Some,
{
}

/// A new writer has no segment, counts from zero, holds no ring, and puts no silence in front of
/// PCM.
pub proof fn law_new_writer_is_empty(w: SegmentWriter)
    requires
        call_ensures(SegmentWriter::new, (), w),
    ensures
        w.segment() is None,
        w.base() == 0,
        !w.prerolls(),
        w.written().len() == 0,
        w.held() is None,
{
}

/// A device without room for DoP is told so.
pub proof fn law_refused_dsd_says_why(dspec: DsdSpec, formats: DeviceFormats, e: Error)
    requires
        call_ensures(plan_dsd, (dspec, &formats), Err::<StreamSpec, Error>(e)),
    ensures
        !formats.s24_3 && !formats.s32,
        e matches Error::Unsupported(s) && s@
            == "device has no 24/32-bit PCM format to carry DoP"@,
{
}

/// A part of a file plays from its start for its own length, counted in whole milliseconds and
/// whole frames.
pub proof fn law_part_lasts_from_start_to_end(
    start: Span,
    end: Span,
    spec: StreamSpec,
    formats: DeviceFormats,
    p: PcmPlan,
    n: u64,
)
    requires
        call_ensures(plan_pcm, (Some((start, end)), spec, &formats), p),
        start.nanos < end.nanos,
        ({
            let d = Span { nanos: (end.nanos - start.nanos) as u128 };
            d.millis() <= u64::MAX && d.countable(spec.rate as nat)
        }),
        p.limit == Some(n),
    ensures
        p.seek == Some(start),
        n * 1000 <= ((end.nanos - start.nanos) / 1_000_000) * spec.rate < (n + 1) * 1000,
{
    let d = Span { nanos: (end.nanos - start.nanos) as u128 };
    assert(d.nanos == end.nanos - start.nanos);
    assert(d.frames(spec.rate as nat) <= d.millis() * spec.rate as nat);
}

} // verus!
