//! The rules around the codec: which packets count, and where a limited track ends.
use crate::error::Error;
use crate::format::{AlsaFmt, StreamSpec};
use vstd::prelude::*;

verus! {

/// What the container says of its audio track.
pub struct CodecParams {
    pub track_id: u32,
    pub sample_rate: Option<u32>,
    pub channels: Option<u32>,
    pub bits_per_sample: Option<u32>,
    pub n_frames: Option<u64>,
}

/// A decoding run over one audio track.
#[derive(Clone, Copy, Debug, PartialEq, Eq, Structural)]
pub struct Decoder {
    pub track_id: u32,
    pub spec: StreamSpec,
    /// Length in frames, where the container says so.
    pub n_frames: Option<u64>,
    /// Frames to hand out before the track counts as ended.
    pub limit_frames: Option<u64>,
    pub frames_emitted: u64,
}

/// What the container gave when asked for a packet.
#[derive(Clone, Copy, Debug, PartialEq, Eq, Structural)]
pub enum PacketEvent {
    Packet { track_id: u32 },
    End,
    /// The track list changed; the stream this run is about is over.
    ResetRequired,
    Failed,
}

/// What to do about it.
#[derive(Clone, Copy, Debug, PartialEq, Eq, Structural)]
pub enum PacketStep {
    Decode,
    Skip,
    Finish,
    Fail,
}

/// What the codec made of a packet.
#[derive(Clone, Copy, Debug, PartialEq, Eq, Structural)]
pub enum DecodeEvent {
    Decoded,
    /// The packet is damaged.
    Corrupt,
    Failed,
}

impl Decoder {
    /// No more was handed out than the limit allows.
    pub open spec fn wf(self) -> bool {
        self.limit_frames matches Some(l) ==> self.frames_emitted <= l
    }

    /// A run over the track, if its rate and channels are known. A source that does not
    /// say how many bits it has is taken for a 32-bit one.
    pub fn open(p: CodecParams) -> (r: Result<Self, Error>)
        ensures
            match (p.sample_rate, p.channels) {
                (Some(rate), Some(channels)) => {
                    let bits = match p.bits_per_sample {
                        Some(b) => b,
                        None => 32u32,
                    };
                    r == Ok::<Decoder, Error>(
                        Decoder {
                            track_id: p.track_id,
                            spec: StreamSpec {
                                rate,
                                channels,
                                source_bits: bits,
                                fmt: AlsaFmt::native(bits as nat),
                                is_dop: false,
                            },
                            n_frames: p.n_frames,
                            limit_frames: None,
                            frames_emitted: 0,
                        },
                    )
                },
                _ => r == Err::<Decoder, Error>(Error::NoTrack),
            },
    {
        let rate: u32 = match p.sample_rate {
            Some(v) => v,
            None => return Err(Error::NoTrack),
        };
        let channels: u32 = match p.channels {
            Some(v) => v,
            None => return Err(Error::NoTrack),
        };
        let bits: u32 = match p.bits_per_sample {
            Some(b) => b,
            None => 32,
        };
        Ok(
            Decoder {
                track_id: p.track_id,
                spec: StreamSpec::new(rate, channels, bits),
                n_frames: p.n_frames,
                limit_frames: None,
                frames_emitted: 0,
            },
        )
    }

    /// The decoder with a new limit, of which nothing is used up yet.
    pub open spec fn limited(self, frames: u64) -> Self {
        Decoder { limit_frames: Some(frames), frames_emitted: 0, ..self }
    }

    /// From here on hand out at most `frames` frames.
    pub fn set_limit(&mut self, frames: u64)
        ensures
            *final(self) == old(self).limited(frames),
            final(self).wf(),
    {
        self.limit_frames = Some(frames);
        self.frames_emitted = 0;
    }

    /// The limit is reached.
    pub open spec fn ended(self) -> bool {
        self.limit_frames matches Some(l) && self.frames_emitted >= l
    }

    /// Whether the limit is reached, so that no packet needs to be asked for.
    pub fn at_limit(&self) -> (b: bool)
        ensures
            b == self.ended(),
    {
        match self.limit_frames {
            Some(l) => self.frames_emitted >= l,
            None => false,
        }
    }

    /// Packets of other tracks are passed over; an end or a changed track list ends the run.
    pub fn on_packet(&self, ev: PacketEvent) -> (s: PacketStep)
        ensures
            s == (match ev {
                PacketEvent::Packet { track_id } => if track_id == self.track_id {
                    PacketStep::Decode
                } else {
                    PacketStep::Skip
                },
                PacketEvent::End => PacketStep::Finish,
                PacketEvent::ResetRequired => PacketStep::Finish,
                PacketEvent::Failed => PacketStep::Fail,
            }),
    {
        match ev {
            PacketEvent::Packet { track_id } => if track_id == self.track_id {
                PacketStep::Decode
            } else {
                PacketStep::Skip
            },
            PacketEvent::End => PacketStep::Finish,
            PacketEvent::ResetRequired => PacketStep::Finish,
            PacketEvent::Failed => PacketStep::Fail,
        }
    }

    /// A damaged packet is passed over; any other failure ends the run with an error.
    pub fn on_decoded(&self, ev: DecodeEvent) -> (s: PacketStep)
        ensures
            s == (match ev {
                DecodeEvent::Decoded => PacketStep::Decode,
                DecodeEvent::Corrupt => PacketStep::Skip,
                DecodeEvent::Failed => PacketStep::Fail,
            }),
    {
        match ev {
            DecodeEvent::Decoded => PacketStep::Decode,
            DecodeEvent::Corrupt => PacketStep::Skip,
            DecodeEvent::Failed => PacketStep::Fail,
        }
    }

    /// Samples to one frame; a stream without channels counts one.
    pub open spec fn step(self) -> nat {
        if self.spec.channels == 0 {
            1
        } else {
            self.spec.channels as nat
        }
    }

    /// What is handed out of a decoded block: no more frames than the limit still allows.
    pub open spec fn kept(self, block: Seq<i32>) -> Seq<i32> {
        match self.limit_frames {
            Some(limit) if block.len() / self.step() > limit - self.frames_emitted => block.take(
                (limit - self.frames_emitted) * self.step(),
            ),
            _ => block,
        }
    }

    /// The decoder after a decoded block.
    pub open spec fn after(self, block: Seq<i32>) -> Self {
        match self.limit_frames {
            Some(limit) => Decoder {
                frames_emitted: if block.len() / self.step() > limit - self.frames_emitted {
                    limit
                } else {
                    (self.frames_emitted + block.len() / self.step()) as u64
                },
                ..self
            },
            None => self,
        }
    }

    /// Hands out the next block, cut to what the limit still allows: `out` holds it if one was
    /// decoded. Returns whether anything is handed out: nothing is at the end of the track or
    /// of the limit.
    pub fn next(&mut self, decoded: bool, out: &mut Vec<i32>) -> (more: bool)
        requires
            old(self).wf(),
        ensures
            final(self).wf(),
            more == (decoded && !old(self).ended()),
            more ==> {
                &&& final(out)@ == old(self).kept(old(out)@)
                &&& *final(self) == old(self).after(old(out)@)
            },
            !more ==> final(out)@ == old(out)@ && *final(self) == *old(self),
    {
        if !decoded || self.at_limit() {
            return false;
        }
        if let Some(limit) = self.limit_frames {
            let ch: usize = if self.spec.channels == 0 {
                1
            } else {
                self.spec.channels as usize
            };
            let frames: u64 = (out.len() / ch) as u64;
            let left: u64 = limit - self.frames_emitted;
            if frames > left {
                let keep: usize = left as usize;
                assert(keep * ch <= out@.len()) by (nonlinear_arith)
                    requires
                        keep <= out@.len() as int / ch as int,
                        ch > 0,
                ;
                out.truncate(keep * ch);
                assert(out@ =~= old(out)@.take(left * old(self).step()));
                self.frames_emitted = limit;
            } else {
                self.frames_emitted = self.frames_emitted + frames;
            }
        }
        true
    }
}

/// The decoder after some blocks.
pub open spec fn after_blocks(d: Decoder, blocks: Seq<Seq<i32>>) -> Decoder
    decreases blocks.len(),
{
    if blocks.len() == 0 {
        d
    } else {
        let before = after_blocks(d, blocks.drop_last());
        if before.ended() {
            before
        } else {
            before.after(blocks.last())
        }
    }
}

/// All samples that are handed out of some blocks: nothing once the limit is reached.
pub open spec fn handed_out(d: Decoder, blocks: Seq<Seq<i32>>) -> Seq<i32>
    decreases blocks.len(),
{
    if blocks.len() == 0 {
        Seq::empty()
    } else {
        let before = after_blocks(d, blocks.drop_last());
        handed_out(d, blocks.drop_last()) + if before.ended() {
            Seq::empty()
        } else {
            before.kept(blocks.last())
        }
    }
}

/// All samples of some blocks.
pub open spec fn samples_of(blocks: Seq<Seq<i32>>) -> Seq<i32>
    decreases blocks.len(),
{
    if blocks.len() == 0 {
        Seq::empty()
    } else {
        samples_of(blocks.drop_last()) + blocks.last()
    }
}

/// A limit is kept exactly: out of any blocks of whole frames that are decoded after it was
/// set, the first `n` frames are handed out, or all of them if there are fewer. What was
/// handed out before, under an earlier limit or none, does not count. The decoder is at its
/// limit once so many were decoded.
pub proof fn law_limit_is_exact(d: Decoder, n: u64, blocks: Seq<Seq<i32>>)
    requires
        forall|k: int|
            0 <= k < blocks.len() ==> (#[trigger] blocks[k]).len() as int % d.step() as int == 0,
    ensures
        ({
            let decoded = samples_of(blocks).len() / d.step();
            let given = if decoded <= n {
                decoded
            } else {
                n as nat
            };
            let end = after_blocks(d.limited(n), blocks);
            &&& samples_of(blocks).len() == decoded * d.step()
            &&& handed_out(d.limited(n), blocks) == samples_of(blocks).take(
                (given * d.step()) as int,
            )
            &&& handed_out(d.limited(n), blocks).len() / d.step() == given
            &&& end == (Decoder { frames_emitted: given as u64, ..d.limited(n) })
            &&& end.wf()
            &&& end.ended() <==> decoded >= n
        }),
    decreases blocks.len(),
{
    let step = d.step() as int;
    let all = samples_of(blocks);
    let got = handed_out(d.limited(n), blocks);
    if blocks.len() == 0 {
        assert(0int / step == 0) by (nonlinear_arith)
            requires
                step > 0,
        ;
        assert(all.take(0) =~= got);
    } else {
        let front = blocks.drop_last();
        let block = blocks.last();
        assert forall|k: int| 0 <= k < front.len() implies (#[trigger] front[k]).len() as int
            % d.step() as int == 0 by {
            assert(front[k] == blocks[k]);
        }
        law_limit_is_exact(d, n, front);
        let before = samples_of(front);
        let a = before.len() as int / step;
        let b = block.len() as int / step;
        assert(blocks[blocks.len() - 1] == block);
        vstd::arithmetic::div_mod::lemma_fundamental_div_mod(block.len() as int, step);
        assert(all.len() == (a + b) * step) by (nonlinear_arith)
            requires
                all.len() == before.len() + block.len(),
                before.len() == a * step,
                block.len() == step * b,
        ;
        vstd::arithmetic::div_mod::lemma_div_multiples_vanish(a + b, step);
        assert(step * (a + b) == (a + b) * step) by (nonlinear_arith);
        let given0 = if a <= n {
            a
        } else {
            n as int
        };
        let given = if a + b <= n {
            a + b
        } else {
            n as int
        };
        vstd::arithmetic::div_mod::lemma_div_multiples_vanish(given, step);
        assert(step * given == given * step) by (nonlinear_arith);
        assert(0 <= given0 * step <= before.len() && 0 <= given * step <= all.len())
            by (nonlinear_arith)
            requires
                0 <= given0 <= a,
                0 <= given <= a + b,
                step > 0,
                before.len() == a * step,
                all.len() == (a + b) * step,
        ;
        let mid = after_blocks(d.limited(n), front);
        if b > n - given0 {
            assert((n - given0) * step + given0 * step == given * step) by (nonlinear_arith)
                requires
                    given == n,
            ;
            assert(0 <= (n - given0) * step <= block.len()) by (nonlinear_arith)
                requires
                    0 <= n - given0 < b,
                    block.len() == step * b,
                    step > 0,
            ;
            assert(n - given0 > 0 ==> given0 == a);
            if n == given0 {
                assert((n - given0) * step == 0) by (nonlinear_arith)
                    requires
                        n == given0,
                ;
            }
        } else if given0 < a {
            assert(b == 0);
            assert(block.len() == 0) by (nonlinear_arith)
                requires
                    b == 0,
                    block.len() == step * b,
            ;
        }
        assert(got =~= all.take(given * step));
    }
}

/// A track is decoded exactly if its rate and channels are known; it then has the source's bits,
/// 32 if they are not told, in the narrowest format for them, and no limit yet.
pub proof fn law_decoder_needs_rate_and_channels(p: CodecParams, r: Result<Decoder, Error>)
    requires
        call_ensures(Decoder::open, (p,), r),
    ensures
        r is Ok <==> p.sample_rate is Some && p.channels is Some,
        r matches Err(e) ==> e == Error::NoTrack,
        r matches Ok(d) ==> {
            &&& d.track_id == p.track_id
            &&& Some(d.spec.rate) == p.sample_rate
            &&& Some(d.spec.channels) == p.channels
            &&& p.bits_per_sample matches Some(b) ==> d.spec.source_bits == b
            &&& p.bits_per_sample is None ==> d.spec.source_bits == 32
            &&& d.spec.source_bits <= 16 ==> d.spec.fmt == AlsaFmt::S16
            &&& 16 < d.spec.source_bits <= 24 ==> d.spec.fmt == AlsaFmt::S24_3
            &&& d.spec.source_bits > 24 ==> d.spec.fmt == AlsaFmt::S32
            &&& !d.spec.is_dop
            &&& d.n_frames == p.n_frames
            &&& d.limit_frames is None
            &&& d.frames_emitted == 0
        },
{
}

/// Only packets of the track are decoded; others and damaged ones are passed over; the run ends
/// at the end or where the track list changes, and fails where reading or decoding does.
pub proof fn law_packets_of_the_track_are_decoded(
    d: Decoder,
    ev: PacketEvent,
    s: PacketStep,
    de: DecodeEvent,
    t: PacketStep,
)
    requires
        call_ensures(Decoder::on_packet, (&d, ev), s),
        call_ensures(Decoder::on_decoded, (&d, de), t),
    ensures
        ev matches PacketEvent::Packet { track_id } ==> {
            &&& track_id == d.track_id ==> s == PacketStep::Decode
            &&& track_id != d.track_id ==> s == PacketStep::Skip
        },
        ev is End || ev is ResetRequired ==> s == PacketStep::Finish,
        ev is Failed ==> s == PacketStep::Fail,
        de is Decoded ==> t == PacketStep::Decode,
        de is Corrupt ==> t == PacketStep::Skip,
        de is Failed ==> t == PacketStep::Fail,
{
}

/// Without a limit every block that is decoded is handed out whole, and nothing is counted.
pub proof fn law_no_limit_hands_out_everything(
    d: &mut Decoder,
    decoded: bool,
    out: &mut Vec<i32>,
    more: bool,
)
    requires
        call_ensures(Decoder::next, (d, decoded, out), more),
        old(d).wf(),
        old(d).limit_frames is None,
    ensures
        more == decoded,
        final(out)@ == old(out)@,
        *final(d) == *old(d),
{
}

/// With a limit a block is handed out whole as long as its whole frames fit, and is else cut to
/// those that are left; once none is left nothing is handed out.
pub proof fn law_limit_cuts_the_last_block(
    d: &mut Decoder,
    decoded: bool,
    out: &mut Vec<i32>,
    more: bool,
    limit: u64,
    frames: nat,
)
    requires
        call_ensures(Decoder::next, (d, decoded, out), more),
        old(d).wf(),
        old(d).limit_frames == Some(limit),
        old(d).spec.channels > 0,
        frames * old(d).spec.channels <= old(out)@.len() < (frames + 1) * old(d).spec.channels,
    ensures
        more <==> decoded && old(d).frames_emitted < limit,
        !more ==> final(d).frames_emitted == old(d).frames_emitted,
        more && old(d).frames_emitted + frames <= limit ==> {
            &&& final(out)@ == old(out)@
            &&& final(d).frames_emitted == old(d).frames_emitted + frames
        },
        more && old(d).frames_emitted + frames > limit ==> {
            &&& final(out)@ == old(out)@.take(
                (limit - old(d).frames_emitted) * old(d).spec.channels,
            )
            &&& final(d).frames_emitted == limit
        },
        final(d).limit_frames == Some(limit),
        final(d).spec == old(d).spec,
{
    let ch = d.spec.channels as int;
    let len = out@.len() as int;
    assert((frames + 1) * ch == frames * ch + ch) by (nonlinear_arith);
    vstd::arithmetic::div_mod::lemma_fundamental_div_mod_converse(
        len,
        ch,
        frames as int,
        len - frames * ch,
    );
    assert(len / ch == frames);
}

/// A limit counts from when it is set, and is reached when so many frames were handed out.
pub proof fn law_limit_starts_anew(d: &mut Decoder, n: u64, u: (), e: Decoder, b: bool)
    requires
        call_ensures(Decoder::set_limit, (d, n), u),
        call_ensures(Decoder::at_limit, (&e,), b),
    ensures
        final(d).limit_frames == Some(n),
        final(d).frames_emitted == 0,
        final(d).spec == old(d).spec,
        final(d).track_id == old(d).track_id,
        final(d).n_frames == old(d).n_frames,
        b <==> (e.limit_frames matches Some(l) && e.frames_emitted >= l),
{
}

} // verus!
