//! The playback engine: its messages, and the decisions of its two threads.
//!
//! A decoding thread fills a ring with wire bytes; an audio thread empties it into the
//! device. Neither changes a byte. Tracks that share a wire format run through one ring
//! without a gap.
use crate::convert::{append_bytes, wire_bytes, Packer};
use crate::dop::{dop_phase, dop_rest, dop_words, DopPacker};
use crate::format::{AlsaFmt, DeviceFormats, StreamSpec};
use crate::span::Span;
use vstd::prelude::*;

pub mod audio_thread;
pub mod decode_thread;

verus! {

/// Frames that the device takes at a time.
pub const DEFAULT_PERIOD: i64 = 1024;

/// Periods that the device buffers.
pub const DEFAULT_PERIODS: i64 = 8;

#[derive(Clone, Copy, Debug, PartialEq, Eq, Structural)]
pub enum Flow {
    Continue,
    Stop,
}

/// How the audio thread is scheduled.
#[derive(Clone, Copy, Debug, PartialEq, Eq, Structural)]
pub enum Sched {
    /// Real-time, at this priority.
    Fifo(i32),
    Fallback,
}

/// What the audio thread did over its life.
#[derive(Clone, Copy, Debug, PartialEq, Eq, Structural)]
pub struct Stats {
    pub frames: u64,
    pub xruns: u64,
    pub sched: Sched,
}

impl Default for Stats {
    fn default() -> (s: Self)
        ensures
            s == (Stats { frames: 0, xruns: 0, sched: Sched::Fallback }),
    {
        Stats { frames: 0, xruns: 0, sched: Sched::Fallback }
    }
}

/// What the user asks of the engine.
pub enum Cmd {
    Play(String),
    /// Play the part of a file between two times.
    PlayRange { path: String, start: Span, end: Span },
    /// Play one track of a disc image.
    PlaySacd { path: String, track: usize },
    Enqueue(String),
    EnqueueSacd { path: String, track: usize },
    Pause,
    Resume,
    Seek(Span),
    Stop,
    Quit,
}

/// What the engine tells its user.
#[derive(Debug)]
pub enum Event {
    Started { spec: StreamSpec, path: String },
    /// Frames played of the current track.
    Position(u64),
    Ended,
    Error(String),
}

/// What the decoding thread tells the audio thread.
pub enum Ctl {
    /// Play what comes through a new ring.
    Open { spec: StreamSpec, consumer: rtrb::Consumer<u8>, pos_base: u64 },
    /// Nothing more will come for now.
    Finish { quit: bool },
    /// Drop what is buffered.
    Flush,
    Pause,
    Resume,
    Quit,
}

/// The stream as the device will get it: in the narrowest format that the device accepts
/// and that holds the source; in its own format if the device has none.
pub open spec fn wired(spec: StreamSpec, formats: DeviceFormats, out: StreamSpec) -> bool {
    &&& out == (StreamSpec { fmt: out.fmt, ..spec })
    &&& if exists|g: AlsaFmt| formats.carries(spec.source_bits as nat, g) {
        &&& formats.carries(spec.source_bits as nat, out.fmt)
        &&& forall|g: AlsaFmt|
            formats.carries(spec.source_bits as nat, g) ==> out.fmt.width() <= #[trigger] g.width()
    } else {
        out.fmt == spec.fmt
    }
}

pub fn wire_spec(spec: StreamSpec, formats: &DeviceFormats) -> (out: StreamSpec)
    ensures
        wired(spec, *formats, out),
{
    match formats.choose_format(spec.source_bits) {
        Some(fmt) => StreamSpec { fmt, ..spec },
        None => spec,
    }
}

/// What to do with a decoded block under a frame limit.
#[derive(Clone, Copy, Debug, PartialEq, Eq, Structural)]
pub enum BlockStep {
    /// The limit was reached before.
    Stop,
    /// Nothing of the block is left.
    Skip,
    /// Take this many samples.
    Take(usize),
}

/// Counts frames against an optional limit.
#[derive(Clone, Copy, Debug, PartialEq, Eq, Structural)]
pub struct FrameBudget {
    pub channels: u32,
    pub max: Option<u64>,
    pub played: u64,
}

impl FrameBudget {
    pub fn new(channels: u32, max: Option<u64>) -> (b: Self)
        ensures
            b == (FrameBudget { channels, max, played: 0 }),
    {
        FrameBudget { channels, max, played: 0 }
    }

    /// The samples of a block of `len` that the limit allows.
    pub open spec fn allowed(self, len: nat) -> int {
        match self.max {
            Some(m) => if len > (m - self.played) * self.channels {
                (m - self.played) * self.channels
            } else {
                len as int
            },
            None => len as int,
        }
    }

    pub fn next(&self, len: usize) -> (s: BlockStep)
        ensures
            s == (if self.max matches Some(m) && self.played >= m {
                BlockStep::Stop
            } else if self.allowed(len as nat) == 0 {
                BlockStep::Skip
            } else {
                BlockStep::Take(self.allowed(len as nat) as usize)
            }),
            s matches BlockStep::Take(n) ==> 0 < n <= len && n == self.allowed(len as nat),
    {
        let mut n: usize = len;
        if let Some(m) = self.max {
            if self.played >= m {
                return BlockStep::Stop;
            }
            let left: u64 = m - self.played;
            assert(0 <= left * self.channels <= 0xffff_ffff_ffff_ffff * 0xffff_ffff)
                by (nonlinear_arith)
                requires
                    0 <= left <= 0xffff_ffff_ffff_ffff,
                    0 <= self.channels <= 0xffff_ffff,
            ;
            let room: u128 = left as u128 * self.channels as u128;
            if len as u128 > room {
                n = room as usize;
            }
        }
        if n == 0 {
            BlockStep::Skip
        } else {
            BlockStep::Take(n)
        }
    }

    /// Takes note of `samples` samples that went through.
    pub fn advance(&mut self, samples: usize)
        requires
            old(self).channels > 0,
            old(self).played + samples / old(self).channels as usize <= u64::MAX,
        ensures
            *final(self) == (FrameBudget {
                played: (old(self).played + samples as int / old(self).channels as int) as u64,
                ..*old(self)
            }),
    {
        self.played = self.played + (samples / self.channels as usize) as u64;
    }
}

/// A limit is never passed: blocks of whole frames, cut as allowed, add up to at most the
/// limit, and reach it as soon as enough was decoded.
pub proof fn law_budget_is_exact(b: FrameBudget, frames: nat)
    requires
        b.channels > 0,
        b.max matches Some(m) && b.played <= m,
    ensures
        ({
            let taken = b.allowed(frames * b.channels as nat) / b.channels as int;
            let m = b.max->0;
            b.played + taken == (if b.played + frames <= m {
                b.played + frames
            } else {
                m as int
            })
        }),
{
    let ch = b.channels as int;
    let m = b.max->0 as int;
    let left = m - b.played;
    vstd::arithmetic::div_mod::lemma_div_multiples_vanish(frames as int, ch);
    vstd::arithmetic::div_mod::lemma_div_multiples_vanish(left, ch);
    assert(frames * ch == ch * frames && left * ch == ch * left) by (nonlinear_arith);
    assert((frames * ch > left * ch) == (frames > left)) by (nonlinear_arith)
        requires
            ch > 0,
    ;
}

/// Without a limit a block is taken whole, whatever was played before.
pub proof fn law_no_limit_takes_whole_blocks(b: FrameBudget, len: usize, s: BlockStep)
    requires
        call_ensures(FrameBudget::next, (&b, len), s),
        b.max is None,
    ensures
        len > 0 ==> s == BlockStep::Take(len),
        len == 0 ==> s == BlockStep::Skip,
{
}

/// With a limit, blocks are refused exactly from the limit on. Before it a block is taken
/// whole if it fits into the frames that are left, and else cut to those.
pub proof fn law_limit_cuts_blocks(b: FrameBudget, len: usize, m: u64, s: BlockStep)
    requires
        call_ensures(FrameBudget::next, (&b, len), s),
        b.max == Some(m),
    ensures
        s == BlockStep::Stop <==> b.played >= m,
        b.played < m && len > 0 && b.channels > 0 ==> s is Take,
        s matches BlockStep::Take(n) ==> {
            &&& 0 < n <= len
            &&& n <= (m - b.played) * b.channels
            &&& n < len ==> n == (m - b.played) * b.channels
        },
{
    if b.played < m && b.channels > 0 {
        assert((m - b.played) * b.channels > 0) by (nonlinear_arith)
            requires
                b.played < m,
                b.channels > 0,
        ;
    }
}

/// Samples are counted in whole frames of all channels; nothing else about the budget changes.
pub proof fn law_advance_counts_frames(b: &mut FrameBudget, frames: nat, samples: usize, u: ())
    requires
        call_ensures(FrameBudget::advance, (b, samples), u),
        old(b).channels > 0,
        old(b).played + frames <= u64::MAX,
        frames * old(b).channels <= samples < (frames + 1) * old(b).channels,
    ensures
        final(b).played == old(b).played + frames,
        final(b).max == old(b).max,
        final(b).channels == old(b).channels,
{
    let ch = b.channels as int;
    assert((frames + 1) * ch == frames * ch + ch) by (nonlinear_arith);
    vstd::arithmetic::div_mod::lemma_fundamental_div_mod_converse(
        samples as int,
        ch,
        frames as int,
        samples - frames * ch,
    );
}

/// What the device gets differs from the source in the sample format at most. That is the
/// narrowest format that the device accepts and that holds the source; the source's own if
/// there is none.
pub proof fn law_wire_goes_by_the_device(spec: StreamSpec, formats: DeviceFormats, out: StreamSpec)
    requires
        call_ensures(wire_spec, (spec, &formats), out),
    ensures
        out.rate == spec.rate,
        out.channels == spec.channels,
        out.source_bits == spec.source_bits,
        out.is_dop == spec.is_dop,
        out.fmt == (if spec.source_bits <= 16 && formats.s16 {
            AlsaFmt::S16
        } else if spec.source_bits <= 24 && formats.s24_3 {
            AlsaFmt::S24_3
        } else if formats.s32 {
            AlsaFmt::S32
        } else {
            spec.fmt
        }),
{
    let bits = spec.source_bits as nat;
    assert(formats.carries(bits, AlsaFmt::S16) <==> bits <= 16 && formats.s16);
    assert(formats.carries(bits, AlsaFmt::S24_3) <==> bits <= 24 && formats.s24_3);
    assert(formats.carries(bits, AlsaFmt::S32) <==> formats.s32);
    assert(AlsaFmt::S16.width() == 16 && AlsaFmt::S24_3.width() == 24);
}

/// Decoded PCM gathered as wire bytes.
pub struct PcmBytes {
    pub spec: StreamSpec,
    pub budget: FrameBudget,
    pub packer: Packer,
    pub bytes: Vec<u8>,
}

impl PcmBytes {
    pub open spec fn wf(self) -> bool {
        &&& self.spec.channels > 0
        &&& self.budget.channels == self.spec.channels
        &&& self.packer.fmt() == self.spec.fmt
    }

    pub fn new(spec: StreamSpec, max: Option<u64>) -> (p: Self)
        requires
            spec.channels > 0,
        ensures
            p.wf(),
            p.spec == spec,
            p.budget == (FrameBudget { channels: spec.channels, max, played: 0 }),
            p.bytes@ == Seq::<u8>::empty(),
    {
        PcmBytes {
            spec,
            budget: FrameBudget::new(spec.channels, max),
            packer: Packer::new(spec.fmt),
            bytes: Vec::new(),
        }
    }

    /// Appends a decoded block, cut to the limit. Asks for no more once it was reached.
    pub fn push(&mut self, block: &[i32]) -> (f: Flow)
        requires
            old(self).wf(),
            old(self).budget.played + block@.len() <= u64::MAX,
        ensures
            final(self).wf(),
            final(self).spec == old(self).spec,
            f == Flow::Stop <==> (old(self).budget.max matches Some(m) && old(self).budget.played
                >= m),
            f == Flow::Stop ==> final(self).bytes@ == old(self).bytes@ && final(self).budget == old(self).budget,
            f == Flow::Continue ==> {
                let n = old(self).budget.allowed(block@.len());
                &&& 0 <= n <= block@.len()
                &&& final(self).bytes@ == old(self).bytes@ + wire_bytes(
                    old(self).spec.fmt,
                    block@.take(n),
                )
                &&& final(self).budget == (FrameBudget {
                    played: (old(self).budget.played + n / old(self).spec.channels as int) as u64,
                    ..old(self).budget
                })
            },
    {
        match self.budget.next(block.len()) {
            BlockStep::Stop => Flow::Stop,
            BlockStep::Skip => {
                assert(wire_bytes(self.spec.fmt, block@.take(0)) =~= Seq::empty());
                assert(self.bytes@ + Seq::<u8>::empty() =~= self.bytes@);
                Flow::Continue
            },
            BlockStep::Take(n) => {
                let part = vstd::slice::slice_subrange(block, 0, n);
                assert(part@ =~= block@.take(n as int));
                let out = self.packer.pack(part);
                append_bytes(&mut self.bytes, &out);
                assert(n as int / self.spec.channels as int <= n) by (nonlinear_arith)
                    requires
                        n >= 0,
                        self.spec.channels >= 1,
                ;
                self.budget.advance(n);
                Flow::Continue
            },
        }
    }
}

/// All samples of some blocks, one behind the other.
pub open spec fn block_samples(blocks: Seq<&[i32]>) -> Seq<i32>
    decreases blocks.len(),
{
    if blocks.len() == 0 {
        Seq::empty()
    } else {
        block_samples(blocks.drop_last()) + blocks.last()@
    }
}

/// Without a limit nothing is lost: whatever blocks are pushed one after the other, more is
/// asked for, and the bytes gathered are the wire bytes of all their samples one behind the
/// other.
pub proof fn law_unlimited_pushes_keep_every_sample(
    calls: Seq<&mut PcmBytes>,
    blocks: Seq<&[i32]>,
    flows: Seq<Flow>,
)
    requires
        calls.len() == blocks.len() == flows.len(),
        calls.len() > 0,
        calls[0].budget.max is None,
        forall|k: int|
            0 <= k < calls.len() ==> call_ensures(
                PcmBytes::push,
                (#[trigger] calls[k], blocks[k]),
                flows[k],
            ),
        forall|k: int|
            0 < k < calls.len() ==> *(#[trigger] calls[k]) == *final(calls[k - 1]),
    ensures
        final(calls.last()).bytes@ == calls[0].bytes@ + wire_bytes(
            calls[0].spec.fmt,
            block_samples(blocks),
        ),
        final(calls.last()).budget.max is None,
        final(calls.last()).spec == calls[0].spec,
        flows.last() == Flow::Continue,
    decreases calls.len(),
{
    let n = calls.len() - 1;
    let fmt = calls[0].spec.fmt;
    assert(call_ensures(PcmBytes::push, (calls[n], blocks[n]), flows[n]));
    assert(blocks[n]@.take(blocks[n]@.len() as int) =~= blocks[n]@);
    if n == 0 {
        assert(block_samples(blocks.drop_last()) =~= Seq::empty());
        assert(block_samples(blocks) =~= blocks[0]@);
    } else {
        let c = calls.drop_last();
        assert forall|k: int| 0 < k < c.len() implies *(#[trigger] c[k]) == *final(c[k - 1]) by {
            assert(c[k] == calls[k]);
        }
        law_unlimited_pushes_keep_every_sample(c, blocks.drop_last(), flows.drop_last());
        assert(*calls[n] == *final(calls[n - 1]));
        assert(c.last() == calls[n - 1]);
        crate::convert::law_packing_goes_by_sample(
            fmt,
            block_samples(blocks.drop_last()),
            blocks[n]@,
        );
    }
}

/// The samples of `all` that a limit of `limit` frames of `ch` channels keeps.
pub open spec fn within(all: Seq<i32>, limit: u64, ch: u32) -> Seq<i32> {
    if all.len() <= limit * ch {
        all
    } else {
        all.take(limit * ch)
    }
}

proof fn lemma_limited_push(
    p: &mut PcmBytes,
    block: &[i32],
    f: Flow,
    head: Seq<i32>,
    limit: u64,
)
    requires
        call_ensures(PcmBytes::push, (p, block), f),
        old(p).wf(),
        old(p).budget.max == Some(limit),
        head.len() as int % old(p).spec.channels as int == 0,
        block@.len() as int % old(p).spec.channels as int == 0,
        old(p).budget.played * old(p).spec.channels == within(
            head,
            limit,
            old(p).spec.channels,
        ).len(),
        old(p).bytes@ == wire_bytes(
            old(p).spec.fmt,
            within(head, limit, old(p).spec.channels),
        ),
    ensures
        final(p).wf(),
        final(p).spec == old(p).spec,
        final(p).budget.max == Some(limit),
        (head + block@).len() as int % old(p).spec.channels as int == 0,
        final(p).budget.played * old(p).spec.channels == within(
            head + block@,
            limit,
            old(p).spec.channels,
        ).len(),
        final(p).bytes@ == wire_bytes(
            old(p).spec.fmt,
            within(head + block@, limit, old(p).spec.channels),
        ),
{
    let fmt = p.spec.fmt;
    let ch = p.spec.channels as int;
    let played = p.budget.played as int;
    let most = limit * ch;
    let block = block@;
    let all = head + block;
    assert(most >= 0) by (nonlinear_arith)
        requires
            most == limit * ch,
            ch > 0,
    ;
    vstd::arithmetic::div_mod::lemma_add_mod_noop(head.len() as int, block.len() as int, ch);
    assert(0int % ch == 0) by (nonlinear_arith)
        requires
            ch > 0,
    ;
    if played >= limit {
        assert(played * ch >= most) by (nonlinear_arith)
            requires
                played >= limit,
                most == limit * ch,
                ch > 0,
        ;
        assert(within(all, limit, p.spec.channels) =~= within(head, limit, p.spec.channels));
    } else {
        let m = p.budget.allowed(block.len());
        assert(played * ch + ch <= most) by (nonlinear_arith)
            requires
                played + 1 <= limit,
                most == limit * ch,
                ch > 0,
        ;
        assert((limit - played) * ch == most - played * ch) by (nonlinear_arith)
            requires
                most == limit * ch,
        ;
        assert(head.len() <= most);
        crate::convert::law_packing_goes_by_sample(fmt, head, block.take(m));
        assert(within(all, limit, p.spec.channels) =~= head + block.take(m));
        if m != block.len() {
            vstd::arithmetic::div_mod::lemma_mod_multiples_basic(limit - played, ch);
        }
        assert(m % ch == 0);
        vstd::arithmetic::div_mod::lemma_fundamental_div_mod(m, ch);
        let q = m / ch;
        assert(0 <= q <= limit - played) by (nonlinear_arith)
            requires
                ch * q == m,
                0 <= m <= (limit - played) * ch,
                ch > 0,
        ;
        assert((played + q) * ch == played * ch + m) by (nonlinear_arith)
            requires
                ch * q == m,
        ;
    }
}

/// With a limit, blocks of whole frames give the wire bytes of the first frames up to the
/// limit, and of all frames as long as there are fewer.
pub proof fn law_limited_pushes_keep_the_first_frames(
    calls: Seq<&mut PcmBytes>,
    blocks: Seq<&[i32]>,
    flows: Seq<Flow>,
    limit: u64,
)
    requires
        calls.len() == blocks.len() == flows.len(),
        calls.len() > 0,
        calls[0].wf(),
        calls[0].budget.max == Some(limit),
        calls[0].budget.played == 0,
        calls[0].bytes@ == Seq::<u8>::empty(),
        forall|k: int|
            0 <= k < blocks.len() ==> (#[trigger] blocks[k])@.len() as int
                % calls[0].spec.channels as int == 0,
        forall|k: int|
            0 <= k < calls.len() ==> call_ensures(
                PcmBytes::push,
                (#[trigger] calls[k], blocks[k]),
                flows[k],
            ),
        forall|k: int|
            0 < k < calls.len() ==> *(#[trigger] calls[k]) == *final(calls[k - 1]),
    ensures
        final(calls.last()).bytes@ == wire_bytes(
            calls[0].spec.fmt,
            within(block_samples(blocks), limit, calls[0].spec.channels),
        ),
        final(calls.last()).budget.max == Some(limit),
        final(calls.last()).budget.played * calls[0].spec.channels == within(
            block_samples(blocks),
            limit,
            calls[0].spec.channels,
        ).len(),
        final(calls.last()).spec == calls[0].spec,
        final(calls.last()).wf(),
        block_samples(blocks).len() as int % calls[0].spec.channels as int == 0,
    decreases calls.len(),
{
    let n = calls.len() - 1;
    let ch = calls[0].spec.channels as int;
    let head = block_samples(blocks.drop_last());
    assert(call_ensures(PcmBytes::push, (calls[n], blocks[n]), flows[n]));
    if n == 0 {
        assert(head =~= Seq::empty());
        assert(limit * ch >= 0 && 0int % ch == 0) by (nonlinear_arith)
            requires
                ch > 0,
        ;
        assert(within(head, limit, calls[0].spec.channels) =~= Seq::empty());
        assert(wire_bytes(calls[0].spec.fmt, Seq::<i32>::empty()) =~= Seq::<u8>::empty());
    } else {
        let c = calls.drop_last();
        assert forall|k: int| 0 < k < c.len() implies *(#[trigger] c[k]) == *final(c[k - 1]) by {
            assert(c[k] == calls[k]);
        }
        law_limited_pushes_keep_the_first_frames(c, blocks.drop_last(), flows.drop_last(), limit);
        assert(*calls[n] == *final(calls[n - 1]));
        assert(c.last() == calls[n - 1]);
    }
    assert(blocks[n]@.len() as int % ch == 0);
    lemma_limited_push(calls[n], blocks[n], flows[n], head, limit);
}

/// DSD gathered as DoP wire bytes.
pub struct DopBytes {
    pub spec: StreamSpec,
    pub max: Option<u64>,
    pub dop: DopPacker,
    pub bytes: Vec<u8>,
}

impl DopBytes {
    pub open spec fn wf(self) -> bool {
        &&& self.dop.wf()
        &&& self.dop.fmt() == self.spec.fmt
        &&& self.dop.ch() == self.spec.channels
        &&& self.spec.frame_bytes() <= usize::MAX
    }

    pub fn new(spec: StreamSpec, max: Option<u64>) -> (p: Self)
        requires
            crate::sink::playable(spec),
            spec.is_dop,
        ensures
            p.wf(),
            p.spec == spec,
            p.max == max,
            p.dop.phase_b() == false,
            p.dop.carried() == Seq::<u8>::empty(),
            p.bytes@ == Seq::<u8>::empty(),
    {
        assert(2 * spec.channels <= spec.frame_bytes()) by (nonlinear_arith)
            requires
                spec.frame_bytes() == spec.fmt.sample_bytes() * spec.channels,
                spec.fmt.sample_bytes() >= 2,
        ;
        DopBytes { spec, max, dop: DopPacker::new(spec.fmt, spec.channels), bytes: Vec::new() }
    }

    /// Appends the words of a DSD block, and cuts at the limit as soon as it is reached.
    pub fn push(&mut self, dsd: &[u8]) -> (f: Flow)
        requires
            old(self).wf(),
        ensures
            final(self).wf(),
            final(self).spec == old(self).spec,
            final(self).max == old(self).max,
            final(self).dop.carried() == dop_rest(
                old(self).dop.ch(),
                old(self).dop.carried() + dsd@,
            ),
            final(self).dop.phase_b() == dop_phase(
                old(self).dop.ch(),
                old(self).dop.carried() + dsd@,
                old(self).dop.phase_b(),
            ),
            ({
                let fb = old(self).spec.frame_bytes();
                let all = old(self).bytes@ + dop_words(
                    old(self).spec.fmt,
                    old(self).dop.ch(),
                    old(self).dop.carried() + dsd@,
                    old(self).dop.phase_b(),
                );
                match old(self).max {
                    Some(m) if all.len() / fb >= m => {
                        &&& f == Flow::Stop
                        &&& final(self).bytes@ == all.take((m * fb) as int)
                    },
                    _ => f == Flow::Continue && final(self).bytes@ == all,
                }
            }),
    {
        let ghost before = self.bytes@;
        let words = self.dop.pack(dsd);
        self.bytes.extend_from_slice(words);
        assert(self.bytes@ =~= before + words@);
        let fb: usize = self.spec.bytes_per_frame();
        assert(fb > 0) by (nonlinear_arith)
            requires
                fb == self.spec.fmt.sample_bytes() * self.spec.channels,
                self.spec.fmt.sample_bytes() >= 2,
                self.spec.channels >= 1,
        ;
        if let Some(m) = self.max {
            let have: usize = self.bytes.len() / fb;
            if have as u64 >= m {
                let keep: usize = m as usize;
                assert(keep * fb <= self.bytes@.len()) by (nonlinear_arith)
                    requires
                        keep <= self.bytes@.len() as int / fb as int,
                        fb > 0,
                ;
                let ghost all = self.bytes@;
                self.bytes.truncate(keep * fb);
                assert(self.bytes@ =~= all.take(m * fb));
                return Flow::Stop;
            }
        }
        Flow::Continue
    }
}

/// The words of a DSD stream are gathered as they come; a limit keeps the first of them, so
/// many frames, and ends the run as soon as it is reached.
pub proof fn law_dop_limit_keeps_the_first_frames(p: &mut DopBytes, dsd: &[u8], f: Flow)
    requires
        call_ensures(DopBytes::push, (p, dsd), f),
        old(p).wf(),
    ensures
        ({
            let all = old(p).bytes@ + dop_words(
                old(p).spec.fmt,
                old(p).spec.channels as nat,
                old(p).dop.carried() + dsd@,
                old(p).dop.phase_b(),
            );
            let fb = old(p).spec.frame_bytes();
            &&& old(p).max is None ==> f == Flow::Continue && final(p).bytes@ == all
            &&& old(p).max matches Some(m) ==> {
                &&& f == Flow::Stop <==> all.len() >= m * fb
                &&& f == Flow::Stop ==> final(p).bytes@ == all.take(m * fb)
                &&& f == Flow::Continue ==> final(p).bytes@ == all
            }
        }),
        final(p).max == old(p).max,
        final(p).spec == old(p).spec,
{
    let all = p.bytes@ + dop_words(
        p.spec.fmt,
        p.spec.channels as nat,
        p.dop.carried() + dsd@,
        p.dop.phase_b(),
    );
    let fb = p.spec.frame_bytes();
    assert(fb > 0) by (nonlinear_arith)
        requires
            fb == p.spec.fmt.sample_bytes() * p.spec.channels as nat,
            p.spec.fmt.sample_bytes() > 0,
            p.spec.channels > 0,
    ;
    if let Some(m) = p.max {
        vstd::arithmetic::div_mod::lemma_fundamental_div_mod(all.len() as int, fb as int);
        let q = all.len() as int / fb as int;
        if q >= m {
            assert(fb * q >= m * fb) by (nonlinear_arith)
                requires
                    q >= m,
                    fb > 0,
            ;
        } else {
            assert(fb * q + fb <= m * fb) by (nonlinear_arith)
                requires
                    q + 1 <= m,
                    fb > 0,
            ;
        }
    }
}

/// Puts the wire bytes of a decoded block into `out`.
pub fn next_pcm_bytes(packer: &mut Packer, block: &[i32], out: &mut Vec<u8>)
    ensures
        final(out)@ == wire_bytes(old(packer).fmt(), block@),
        final(packer).fmt() == old(packer).fmt(),
{
    out.clear();
    let frames = packer.pack(block);
    append_bytes(out, &frames);
    assert(out@ =~= frames.bytes());
}

/// Puts the DoP words of a DSD block into `out`.
pub fn next_dsd_bytes(dop: &mut DopPacker, dsd: &[u8], out: &mut Vec<u8>)
    requires
        old(dop).wf(),
    ensures
        final(out)@ == dop_words(
            old(dop).fmt(),
            old(dop).ch(),
            old(dop).carried() + dsd@,
            old(dop).phase_b(),
        ),
        final(dop).wf(),
        final(dop).fmt() == old(dop).fmt(),
        final(dop).ch() == old(dop).ch(),
        final(dop).carried() == dop_rest(old(dop).ch(), old(dop).carried() + dsd@),
        final(dop).phase_b() == dop_phase(
            old(dop).ch(),
            old(dop).carried() + dsd@,
            old(dop).phase_b(),
        ),
{
    out.clear();
    let words = dop.pack(dsd);
    out.extend_from_slice(words);
    assert(out@ =~= words@);
}

/// A budget, and what is gathered under it, starts with nothing played and nothing gathered, at
/// the limit that was given.
pub proof fn law_gathering_starts_empty(
    channels: u32,
    spec: StreamSpec,
    dop: StreamSpec,
    max: Option<u64>,
    b: FrameBudget,
    p: PcmBytes,
    d: DopBytes,
    s: Stats,
)
    requires
        call_ensures(FrameBudget::new, (channels, max), b),
        call_ensures(PcmBytes::new, (spec, max), p),
        call_ensures(DopBytes::new, (dop, max), d),
        call_ensures(Stats::default, (), s),
        spec.channels > 0,
        crate::sink::playable(dop),
        dop.is_dop,
    ensures
        b.channels == channels && b.max == max && b.played == 0,
        p.spec == spec && p.bytes@.len() == 0,
        p.budget.channels == spec.channels && p.budget.max == max && p.budget.played == 0,
        p.packer.fmt() == spec.fmt,
        d.spec == dop && d.max == max && d.bytes@.len() == 0,
        d.dop.carried().len() == 0 && !d.dop.phase_b(),
        s.frames == 0 && s.xruns == 0 && s.sched == Sched::Fallback,
{
}

/// A decoded block is put out as its wire bytes and nothing else; DSD goes through the packer,
/// which keeps what makes no whole frame yet.
pub proof fn law_blocks_are_put_out_alone(
    packer: &mut Packer,
    block: &[i32],
    out: &mut Vec<u8>,
    u: (),
    a: &mut DopPacker,
    b: &mut DopPacker,
    dsd: &[u8],
    o: &mut Vec<u8>,
    v: (),
    words: &[u8],
)
    requires
        call_ensures(next_pcm_bytes, (packer, block, out), u),
        call_ensures(next_dsd_bytes, (a, dsd, o), v),
        call_ensures(DopPacker::pack, (b, dsd), words),
        old(a).wf(),
        *old(a) == *old(b),
    ensures
        final(out)@ == wire_bytes(old(packer).fmt(), block@),
        final(packer).fmt() == old(packer).fmt(),
        final(o)@ == words@,
        final(a).carried() == final(b).carried(),
        final(a).phase_b() == final(b).phase_b(),
        final(a).ch() == old(a).ch() && final(a).fmt() == old(a).fmt(),
{
}

/// A push takes just what the budget allows of its block, puts that behind what was gathered, and
/// counts its frames; it ends the run exactly where the budget does.
pub proof fn law_push_takes_what_the_budget_allows(
    p: &mut PcmBytes,
    block: &[i32],
    len: usize,
    s: BlockStep,
    f: Flow,
)
    requires
        call_ensures(PcmBytes::push, (p, block), f),
        call_ensures(FrameBudget::next, (&old(p).budget, len), s),
        len == block@.len(),
        old(p).wf(),
        old(p).budget.played + len <= u64::MAX,
    ensures
        f == Flow::Stop <==> s == BlockStep::Stop,
        s matches BlockStep::Take(n) ==> {
            &&& final(p).bytes@ == old(p).bytes@ + wire_bytes(old(p).spec.fmt, block@.take(n as int))
            &&& final(p).budget.played == old(p).budget.played + n as int
                / old(p).spec.channels as int
        },
        !(s is Take) ==> final(p).bytes@ == old(p).bytes@ && final(p).budget.played == old(
            p,
        ).budget.played,
        final(p).budget.max == old(p).budget.max,
        final(p).spec == old(p).spec,
{
    let ch = p.spec.channels as int;
    if let BlockStep::Take(n) = s {
        assert(0 <= n as int / ch <= n) by (nonlinear_arith)
            requires
                ch > 0,
                n >= 0,
        ;
    }
    if s == BlockStep::Skip {
        assert(p.budget.allowed(block@.len()) == 0);
        assert(wire_bytes(p.spec.fmt, block@.take(0)) =~= Seq::empty());
        assert(0int / ch == 0) by (nonlinear_arith)
            requires
                ch > 0,
        ;
    }
}

/// Gathering DSD goes on where it stopped: what makes no whole frame yet, and the marker that is
/// due, are those of the packer alone.
pub proof fn law_gathered_words_go_on(
    p: &mut DopBytes,
    b: &mut DopPacker,
    dsd: &[u8],
    f: Flow,
    words: &[u8],
)
    requires
        call_ensures(DopBytes::push, (p, dsd), f),
        call_ensures(DopPacker::pack, (b, dsd), words),
        old(p).wf(),
        *old(b) == old(p).dop,
    ensures
        final(p).dop.carried() == final(b).carried(),
        final(p).dop.phase_b() == final(b).phase_b(),
        f == Flow::Continue ==> final(p).bytes@ == old(p).bytes@ + words@,
{
}

} // verus!
